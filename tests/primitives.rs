use os8_sync::condvar::Condvar;
use os8_sync::ledger::Ledger;
use os8_sync::mutex::{AnyMutex, LockStep, Mutex, MutexBlocking, MutexSpin, UnlockStep};
use os8_sync::semaphore::{DownStep, Semaphore};

/// A ledger with one slot of one unit and no tasks.
fn one_unit() -> Ledger {
    let mut l = Ledger::new();
    l.open_slot(0, 1);
    l
}

#[test]
fn spin_mutex_locks_and_frees() {
    let mut l = one_unit();
    let mut m = MutexSpin::new();
    assert!(!m.locked);
    assert_eq!(m.lock(&mut l, 0, 0), LockStep::Acquired);
    assert_eq!(l.allocation[0][0], 1);
    assert_eq!(l.available[0], 0);
    assert_eq!(m.lock(&mut l, 1, 0), LockStep::Retry);
    assert_eq!(m.lock(&mut l, 1, 0), LockStep::Retry);
    assert_eq!(l.allocation.len(), 1);
    l.release(0, 0);
    assert_eq!(m.unlock(&mut l, 0), UnlockStep::Released);
    assert!(!m.locked);
    assert_eq!(m.lock(&mut l, 1, 0), LockStep::Acquired);
    assert_eq!(l.allocation[1][0], 1);
    assert_eq!(l.available[0], 0);
}

#[test]
fn spin_lock_charges_requested_unit_once() {
    let mut l = one_unit();
    l.add_task_rows(0);
    l.request(0, 0);
    let mut m = MutexSpin::new();
    assert_eq!(m.lock(&mut l, 0, 0), LockStep::Acquired);
    assert_eq!(l.need[0][0], 0);
    assert_eq!(l.allocation[0][0], 1);
}

#[test]
fn blocking_mutex_queues_and_hands_off() {
    let mut l = one_unit();
    let mut m = MutexBlocking::new();
    assert_eq!(m.lock(&mut l, 0, 0), LockStep::Acquired);
    assert_eq!(m.lock(&mut l, 1, 0), LockStep::Blocked);
    assert_eq!(m.lock(&mut l, 2, 0), LockStep::Blocked);
    assert_eq!(l.allocation[0][0], 1);
    assert_eq!(l.allocation.len(), 1);
    l.release(0, 0);
    assert_eq!(m.unlock(&mut l, 0), UnlockStep::HandedOff(1));
    assert!(m.inner.locked);
    assert_eq!(l.allocation[1][0], 1);
    assert_eq!(l.available[0], 0);
    l.release(1, 0);
    assert_eq!(m.unlock(&mut l, 0), UnlockStep::HandedOff(2));
    assert_eq!(l.allocation[2][0], 1);
    l.release(2, 0);
    assert_eq!(m.unlock(&mut l, 0), UnlockStep::Released);
    assert!(!m.inner.locked);
    assert!(m.inner.wait_queue.is_empty());
    assert_eq!(l.available[0], 1);
}

#[test]
fn any_mutex_keeps_its_strategy() {
    let mut l = Ledger::new();
    l.open_slot(0, 1);
    l.open_slot(1, 1);
    let mut spin = AnyMutex::new(false);
    let mut queued = AnyMutex::new(true);
    assert_eq!(spin.lock(&mut l, 0, 0), LockStep::Acquired);
    assert_eq!(spin.lock(&mut l, 1, 0), LockStep::Retry);
    assert_eq!(queued.lock(&mut l, 0, 1), LockStep::Acquired);
    assert_eq!(queued.lock(&mut l, 1, 1), LockStep::Blocked);
}

#[test]
fn semaphore_counts_then_queues() {
    let mut s = Semaphore::new(1);
    assert_eq!(s.down(0), DownStep::Acquired);
    assert_eq!(s.count, 0);
    assert_eq!(s.down(1), DownStep::Blocked);
    assert_eq!(s.up(), Some(1));
    assert_eq!(s.count, 0);
    assert_eq!(s.up(), None);
    assert_eq!(s.count, 1);
}

#[test]
fn condvar_signal_is_not_remembered() {
    let mut l = one_unit();
    let mut c = Condvar::new();
    assert_eq!(c.signal(), None);
    let mut m = MutexBlocking::new();
    m.lock(&mut l, 0, 0);
    l.release(0, 0);
    assert_eq!(c.wait(&mut m, &mut l, 0, 0), UnlockStep::Released);
    assert!(!m.inner.locked);
    assert_eq!(l.available[0], 1);
    assert_eq!(c.signal(), Some(0));
    assert_eq!(c.signal(), None);
}

#[test]
fn spin_unlock_of_free_lock_leaves_it_free() {
    let mut l = one_unit();
    let mut m = MutexSpin::new();
    assert_eq!(m.unlock(&mut l, 0), UnlockStep::Released);
    assert!(!m.locked);
    assert_eq!(l.available[0], 1);
}
