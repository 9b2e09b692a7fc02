//! Synchronization core of a small teaching kernel: mutexes, semaphores,
//! condition variables and per-process deadlock detection, written as a
//! verified state machine that a scheduler drives.
pub mod condvar;
pub mod ledger;
pub mod mutex;
pub mod safety;
pub mod semaphore;
pub mod syscall;
