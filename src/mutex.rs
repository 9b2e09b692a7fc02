//! Mutual-exclusion locks in two strategies: one that makes contenders
//! retry, and one that queues them and hands the lock straight to the
//! oldest waiter on release.
use std::collections::VecDeque;
use vstd::prelude::*;
use crate::ledger::{granted, Ledger};

verus! {

/// What a lock attempt asks of the scheduler.
#[derive(PartialEq, Eq, Structural, Clone, Copy, Debug)]
pub enum LockStep {
    /// The caller now holds the lock.
    Acquired,
    /// The lock is taken: yield, then try again.
    Retry,
    /// The lock is taken and the caller was queued: block it until
    /// `unlock` hands it the lock, charging it the unit then.
    Blocked,
}

/// What a release asks of the scheduler.
#[derive(PartialEq, Eq, Structural, Clone, Copy, Debug)]
pub enum UnlockStep {
    /// The lock is free.
    Released,
    /// The lock passed, still held, to this queued task: make it runnable.
    HandedOff(usize),
}

/// A lock over one resource unit.
pub trait Mutex {
    /// Someone holds the lock.
    spec fn is_locked(&self) -> bool;

    /// Tasks queued for the lock, oldest first.
    spec fn waiters(&self) -> Seq<usize>;

    /// Contenders are queued and served by hand-off rather than retrying.
    spec fn queues(&self) -> bool;

    /// Tries to take the lock, ledger slot `slot`, for task `tid`. Taking
    /// it charges the caller its unit in `ledger`, once; a caller that has
    /// to retry or wait is not charged.
    fn lock(&mut self, ledger: &mut Ledger, tid: usize, slot: usize) -> (s: LockStep)
        requires
            old(ledger).wf(),
            slot < old(ledger).slots(),
            !old(self).is_locked() ==> old(ledger).available@[slot as int] >= 1,
        ensures
            final(self).is_locked(),
            final(self).queues() == old(self).queues(),
            !old(self).is_locked() ==> s == LockStep::Acquired && final(self).waiters() == old(self).waiters()
                && granted(*old(ledger), *final(ledger), tid as int, slot as int),
            old(self).is_locked() ==> *final(ledger) == *old(ledger),
            old(self).is_locked() && !old(self).queues() ==> s == LockStep::Retry
                && final(self).waiters() == old(self).waiters(),
            old(self).is_locked() && old(self).queues() ==> s == LockStep::Blocked
                && final(self).waiters() == old(self).waiters().push(tid),
    ;

    /// Releases the lock, ledger slot `slot`, or hands it to the oldest
    /// waiter, which is charged its unit in `ledger` and so resumes holding
    /// the lock. Releasing a queueing lock that nobody holds is a caller
    /// error; a retrying lock just ends up free.
    fn unlock(&mut self, ledger: &mut Ledger, slot: usize) -> (s: UnlockStep)
        requires
            old(self).queues() ==> old(self).is_locked(),
            old(ledger).wf(),
            slot < old(ledger).slots(),
            old(self).waiters().len() > 0 ==> old(ledger).available@[slot as int] >= 1,
        ensures
            final(self).queues() == old(self).queues(),
            old(self).waiters().len() == 0 ==> s == UnlockStep::Released && !final(self).is_locked()
                && final(self).waiters() == old(self).waiters() && *final(ledger) == *old(ledger),
            old(self).waiters().len() > 0 ==> s == UnlockStep::HandedOff(old(self).waiters()[0])
                && final(self).is_locked()
                && final(self).waiters() == old(self).waiters().drop_first()
                && granted(*old(ledger), *final(ledger), old(self).waiters()[0] as int, slot as int),
    ;
}

/// A lock whose contenders yield and try again.
pub struct MutexSpin {
    pub locked: bool,
}

impl MutexSpin {
    pub fn new() -> (m: Self)
        ensures
            !m.locked,
    {
        MutexSpin { locked: false }
    }
}

impl Mutex for MutexSpin {
    open spec fn is_locked(&self) -> bool {
        self.locked
    }

    open spec fn waiters(&self) -> Seq<usize> {
        Seq::empty()
    }

    open spec fn queues(&self) -> bool {
        false
    }

    fn lock(&mut self, ledger: &mut Ledger, tid: usize, slot: usize) -> (s: LockStep) {
        if self.locked {
            LockStep::Retry
        } else {
            ledger.give_unit(tid, slot);
            self.locked = true;
            LockStep::Acquired
        }
    }

    fn unlock(&mut self, ledger: &mut Ledger, slot: usize) -> (s: UnlockStep) {
        self.locked = false;
        UnlockStep::Released
    }
}

/// State of a queueing lock.
pub struct MutexBlockingInner {
    pub locked: bool,
    pub wait_queue: VecDeque<usize>,
}

/// A lock that queues its contenders and hands itself to the oldest one on
/// release, never passing through a free state while anyone waits.
pub struct MutexBlocking {
    pub inner: MutexBlockingInner,
}

impl MutexBlocking {
    pub fn new() -> (m: Self)
        ensures
            !m.inner.locked,
            m.inner.wait_queue@.len() == 0,
    {
        MutexBlocking { inner: MutexBlockingInner { locked: false, wait_queue: VecDeque::new() } }
    }
}

impl Mutex for MutexBlocking {
    open spec fn is_locked(&self) -> bool {
        self.inner.locked
    }

    open spec fn waiters(&self) -> Seq<usize> {
        self.inner.wait_queue@
    }

    open spec fn queues(&self) -> bool {
        true
    }

    fn lock(&mut self, ledger: &mut Ledger, tid: usize, slot: usize) -> (s: LockStep) {
        if self.inner.locked {
            self.inner.wait_queue.push_back(tid);
            LockStep::Blocked
        } else {
            ledger.give_unit(tid, slot);
            self.inner.locked = true;
            LockStep::Acquired
        }
    }

    fn unlock(&mut self, ledger: &mut Ledger, slot: usize) -> (s: UnlockStep) {
        match self.inner.wait_queue.pop_front() {
            Some(t) => {
                ledger.give_unit(t, slot);
                UnlockStep::HandedOff(t)
            },
            None => {
                self.inner.locked = false;
                UnlockStep::Released
            },
        }
    }
}

/// A lock of either strategy, fixed when it is made.
pub enum AnyMutex {
    Spin(MutexSpin),
    Blocking(MutexBlocking),
}

impl AnyMutex {
    /// A free lock: queueing when `blocking`, retrying otherwise.
    pub fn new(blocking: bool) -> (m: Self)
        ensures
            !m.is_locked(),
            m.waiters().len() == 0,
            m.queues() == blocking,
    {
        if blocking {
            AnyMutex::Blocking(MutexBlocking::new())
        } else {
            AnyMutex::Spin(MutexSpin::new())
        }
    }
}

impl Mutex for AnyMutex {
    open spec fn is_locked(&self) -> bool {
        match self {
            AnyMutex::Spin(m) => m.is_locked(),
            AnyMutex::Blocking(m) => m.is_locked(),
        }
    }

    open spec fn waiters(&self) -> Seq<usize> {
        match self {
            AnyMutex::Spin(m) => m.waiters(),
            AnyMutex::Blocking(m) => m.waiters(),
        }
    }

    open spec fn queues(&self) -> bool {
        match self {
            AnyMutex::Spin(m) => m.queues(),
            AnyMutex::Blocking(m) => m.queues(),
        }
    }

    fn lock(&mut self, ledger: &mut Ledger, tid: usize, slot: usize) -> (s: LockStep) {
        match self {
            AnyMutex::Spin(m) => m.lock(ledger, tid, slot),
            AnyMutex::Blocking(m) => m.lock(ledger, tid, slot),
        }
    }

    fn unlock(&mut self, ledger: &mut Ledger, slot: usize) -> (s: UnlockStep) {
        match self {
            AnyMutex::Spin(m) => m.unlock(ledger, slot),
            AnyMutex::Blocking(m) => m.unlock(ledger, slot),
        }
    }
}

} // verus!
