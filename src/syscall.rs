//! The system calls of the synchronization core, as transitions of a
//! process's synchronization state. Each call takes the calling task's id
//! and returns the value for the caller together with what the scheduler
//! must do next; the scheduler itself lives outside this crate.
use vstd::prelude::*;
use crate::condvar::Condvar;
use crate::ledger::{bumped, col_sum, grown, lemma_lowered_bumped, lowered, slot_opened, Ledger, lemma_held_unit_not_free, lemma_two_entries_le_col_sum};
use crate::mutex::{AnyMutex, LockStep, Mutex, UnlockStep};
use crate::safety::deadlocked;
use crate::semaphore::{DownStep, Semaphore};

verus! {

/// Returned when granting a request could leave some task unable to finish.
pub const DEADLOCK: isize = -0xDEAD;

/// Returned for a slot id with nothing in it, or a bad argument.
pub const INVALID: isize = -1;

/// What the scheduler does with the caller after a call.
#[derive(PartialEq, Eq, Clone, Copy, Debug)]
pub enum Action {
    /// Return to the caller at once.
    Proceed,
    /// Yield, then retry the lock with `sys_mutex_lock_retry`.
    Yield,
    /// Block the caller until another call names it in `wake`; it then
    /// returns 0.
    Block,
    /// Block the caller until the given time in milliseconds, then return 0.
    SleepUntil(usize),
}

/// Result of a call: the value for the caller, the scheduler's next step
/// for it, and a blocked task to make runnable again.
#[derive(PartialEq, Eq, Clone, Copy, Debug)]
pub struct Outcome {
    pub ret: isize,
    pub action: Action,
    pub wake: Option<usize>,
}

/// Slot `i` of `list` is the lowest empty one.
pub open spec fn lowest_free<T>(list: Seq<Option<T>>, i: int) -> bool {
    &&& 0 <= i < list.len()
    &&& list[i] is None
    &&& forall|j: int| 0 <= j < i ==> list[j] is Some
}

/// Where a new entry goes: the lowest empty slot, or the end of the list.
pub open spec fn first_free<T>(list: Seq<Option<T>>) -> int {
    if exists|i: int| lowest_free(list, i) {
        choose|i: int| lowest_free(list, i)
    } else {
        list.len() as int
    }
}

/// `list` with `x` put where a new entry goes.
pub open spec fn placed<T>(list: Seq<Option<T>>, x: T) -> Seq<Option<T>> {
    let i = first_free(list);
    if i < list.len() {
        list.update(i, Some(x))
    } else {
        list.push(Some(x))
    }
}

proof fn lemma_first_free<T>(list: Seq<Option<T>>, x: T)
    ensures
        0 <= first_free(list) <= list.len(),
        first_free(list) < list.len() ==> list[first_free(list)] is None,
        placed(list, x).len() == if first_free(list) < list.len() { list.len() } else { list.len() + 1 },
        placed(list, x)[first_free(list)] == Some(x),
        forall|j: int| 0 <= j < list.len() && j != first_free(list) ==> #[trigger] placed(list, x)[j] == list[j],
{
    if exists|i: int| lowest_free(list, i) {
        let i = choose|i: int| lowest_free(list, i);
        assert(lowest_free(list, i));
    }
}

/// Slot `i` of `list` holds an entry.
pub open spec fn live<T>(list: Seq<Option<T>>, i: int) -> bool {
    0 <= i < list.len() && list[i] is Some
}

/// Index of the lowest empty slot, or the length when none is empty.
fn find_free<T>(list: &Vec<Option<T>>) -> (i: usize)
    ensures
        i == first_free(list@),
{
    let n = list.len();
    let mut i: usize = 0;
    while i < n
        invariant
            i <= n,
            n == list@.len(),
            forall|j: int| 0 <= j < i ==> list@[j] is Some,
        decreases n - i,
    {
        if list[i].is_none() {
            assert(lowest_free(list@, i as int));
            let ghost c = choose|c: int| lowest_free(list@, c);
            assert(c == i) by {
                if c < i {
                } else if c > i {
                }
            }
            return i;
        }
        i = i + 1;
    }
    assert(!exists|c: int| lowest_free(list@, c));
    n
}

/// Puts `x` where a new entry goes and returns its slot.
fn place<T>(list: &mut Vec<Option<T>>, x: T) -> (i: usize)
    ensures
        i == first_free(old(list)@),
        final(list)@ == placed(old(list)@, x),
{
    let i = find_free(list);
    if i < list.len() {
        list[i] = Some(x);
    } else {
        list.push(Some(x));
    }
    i
}

/// A process's locks, semaphores and condition variables, the ledgers of
/// the first two, and whether requests are checked for deadlock.
pub struct SyncState {
    pub mutex_list: Vec<Option<AnyMutex>>,
    pub semaphore_list: Vec<Option<Semaphore>>,
    pub condvar_list: Vec<Option<Condvar>>,
    pub mutex_ledger: Ledger,
    pub semaphore_ledger: Ledger,
    pub deadlock_detect_enabled: bool,
}

/// A lock in slot `i` owns one unit, free exactly when it is unlocked.
pub open spec fn mutex_agrees(list: Seq<Option<AnyMutex>>, l: Ledger, i: int) -> bool {
    match list[i] {
        Some(m) => {
            &&& l.total@[i] == 1
            &&& l.available@[i] == if m.is_locked() { 0usize } else { 1usize }
        },
        None => true,
    }
}

/// A semaphore's count is its ledger's free units.
pub open spec fn semaphore_agrees(list: Seq<Option<Semaphore>>, l: Ledger, i: int) -> bool {
    match list[i] {
        Some(s) => l.available@[i] == s.count,
        None => true,
    }
}

/// The lock table and its ledger describe the same slots.
pub open spec fn mutexes_wf(list: Seq<Option<AnyMutex>>, l: Ledger) -> bool {
    &&& l.wf()
    &&& l.slots() == list.len()
    &&& forall|i: int| 0 <= i < list.len() ==> #[trigger] mutex_agrees(list, l, i)
}

/// The semaphore table and its ledger describe the same slots.
pub open spec fn semaphores_wf(list: Seq<Option<Semaphore>>, l: Ledger) -> bool {
    &&& l.wf()
    &&& l.slots() == list.len()
    &&& forall|i: int| 0 <= i < list.len() ==> #[trigger] semaphore_agrees(list, l, i)
}

impl SyncState {
    pub open spec fn wf(&self) -> bool {
        &&& mutexes_wf(self.mutex_list@, self.mutex_ledger)
        &&& semaphores_wf(self.semaphore_list@, self.semaphore_ledger)
    }

    /// No resources, detection off.
    pub fn new() -> (st: Self)
        ensures
            st.wf(),
            st.mutex_list@.len() == 0,
            st.semaphore_list@.len() == 0,
            st.condvar_list@.len() == 0,
            !st.deadlock_detect_enabled,
    {
        SyncState {
            mutex_list: Vec::new(),
            semaphore_list: Vec::new(),
            condvar_list: Vec::new(),
            mutex_ledger: Ledger::new(),
            semaphore_ledger: Ledger::new(),
            deadlock_detect_enabled: false,
        }
    }
}

/// `l2` is `l` after task `t`'s request for one unit of slot `r` was
/// counted and nothing was granted: the request stays counted.
pub open spec fn request_left_counted(l: Ledger, l2: Ledger, t: int, r: int) -> bool {
    &&& l2.total == l.total
    &&& l2.available == l.available
    &&& l2.need_view() == l.need_after_request(t, r)
}

/// `l2` is `l` after task `t`'s request for one unit of slot `r` was
/// counted and granted at once: the unit left the free pool and the count
/// went back down, to where it was unless it had reached the top.
pub open spec fn request_granted(l: Ledger, l2: Ledger, t: int, r: int) -> bool {
    &&& l2.total == l.total
    &&& l2.available@ == l.available@.update(r, (l.available@[r] - 1) as usize)
    &&& l2.need_view() == lowered(l.need_after_request(t, r), t, r)
    &&& grown(l.need_view(), l.slots(), (t + 1) as nat)[t][r] < usize::MAX
        ==> l2.need_view() == grown(l.need_view(), l.slots(), (t + 1) as nat)
}

/// `l2` is `l` after a unit of slot `r` went to task `t`, whose request
/// was counted earlier: the unit left the free pool and the count went down.
pub open spec fn counted_request_granted(l: Ledger, l2: Ledger, t: int, r: int) -> bool {
    &&& l2.total == l.total
    &&& l2.available@ == l.available@.update(r, (l.available@[r] - 1) as usize)
    &&& l2.need_view() == lowered(grown(l.need_view(), l.slots(), (t + 1) as nat), t, r)
}

/// `l2` is `l` after a unit of slot `r` was released and, when `to` names a
/// waiter, passed to it: with a waiter the free units stay and the waiter's
/// counted request goes down; without, the unit becomes free and no request
/// changes.
pub open spec fn unit_released(l: Ledger, l2: Ledger, r: int, to: Option<usize>) -> bool {
    &&& l2.total == l.total
    &&& match to {
        Some(w) => l2.available@ == l.available@
            && l2.need_view() == lowered(grown(l.need_view(), l.slots(), (w + 1) as nat), w as int, r),
        None => l2.available@ == l.available@.update(r, (l.available@[r] + 1) as usize)
            && l2.need_view() == l.need_view(),
    }
}

/// Every task's holding of every slot is the same in `l2` as in `l`,
/// except the holdings of tasks `a` and `b` in slot `r`.
pub open spec fn holdings_kept(l: Ledger, l2: Ledger, r: int, a: int, b: int) -> bool {
    forall|t: int, k: int| 0 <= k < l.slots() && !(k == r && (t == a || t == b))
        ==> #[trigger] l2.held(t, k) == l.held(t, k)
}

/// The outcome for an id that names no resource.
pub open spec fn invalid_outcome(o: Outcome) -> bool {
    o.ret == INVALID && o.action == Action::Proceed && o.wake.is_none()
}

/// The caller returns `ret` at once and nobody is woken.
pub open spec fn plain_outcome(o: Outcome, ret: isize) -> bool {
    o.ret == ret && o.action == Action::Proceed && o.wake.is_none()
}

/// Creates a lock, queueing when `blocking`, in the lowest empty slot and
/// returns the slot. Its ledger column starts with one free unit and no
/// requests or holdings.
#[verifier::spinoff_prover]
pub fn sys_mutex_create(st: &mut SyncState, blocking: bool) -> (id: isize)
    requires
        old(st).wf(),
        old(st).mutex_list@.len() < isize::MAX,
    ensures
        final(st).wf(),
        id == first_free(old(st).mutex_list@),
        ({
            let m = final(st).mutex_list@[id as int]->Some_0;
            &&& final(st).mutex_list@ == placed(old(st).mutex_list@, m)
            &&& !m.is_locked()
            &&& m.waiters().len() == 0
            &&& m.queues() == blocking
        }),
        slot_opened(old(st).mutex_ledger, final(st).mutex_ledger, id as int, 1),
        final(st).semaphore_list == old(st).semaphore_list,
        final(st).semaphore_ledger == old(st).semaphore_ledger,
        final(st).condvar_list == old(st).condvar_list,
        final(st).deadlock_detect_enabled == old(st).deadlock_detect_enabled,
{
    let m = AnyMutex::new(blocking);
    let ghost mv = m;
    proof {
        lemma_first_free(old(st).mutex_list@, mv);
    }
    let i = place(&mut st.mutex_list, m);
    assert(i < isize::MAX);
    st.mutex_ledger.open_slot(i, 1);
    assert(st.mutex_list@[i as int] == Some(mv));
    assert forall|j: int| 0 <= j < st.mutex_list@.len() implies #[trigger] mutex_agrees(st.mutex_list@, st.mutex_ledger, j) by {
        if j != i {
            assert(mutex_agrees(old(st).mutex_list@, old(st).mutex_ledger, j));
            assert(st.mutex_list@[j] == old(st).mutex_list@[j]);
            assert(st.mutex_ledger.available@[j] == old(st).mutex_ledger.available@[j]);
        }
    }
    assert(slot_opened(old(st).mutex_ledger, st.mutex_ledger, i as int, 1));
    let id = i as isize;
    assert(id as int == i as int);
    id
}

/// Asks for lock `mutex_id` for task `tid`. The request is counted first.
/// With detection on, a request that would leave some task unable to finish
/// is refused with `DEADLOCK` and the lock is not touched. Otherwise the
/// lock is taken, or the caller yields (retrying lock) or blocks (queueing
/// lock) until it gets it; the lock itself charges the caller.
/// Caveat: a refused request is not taken back. It stays counted in `need`,
/// so later safety checks see the task as still wanting that unit and may
/// refuse requests they would otherwise let through.
pub fn sys_mutex_lock(st: &mut SyncState, tid: usize, mutex_id: usize) -> (o: Outcome)
    requires
        old(st).wf(),
        tid < usize::MAX,
    ensures
        final(st).wf(),
        !old(st).deadlock_detect_enabled ==> o.ret != DEADLOCK,
        !live(old(st).mutex_list@, mutex_id as int) ==> invalid_outcome(o) && *final(st) == *old(st),
        live(old(st).mutex_list@, mutex_id as int) ==> ({
            let m = old(st).mutex_list@[mutex_id as int]->Some_0;
            let m2 = final(st).mutex_list@[mutex_id as int]->Some_0;
            let l = old(st).mutex_ledger;
            let l2 = final(st).mutex_ledger;
            let refused = old(st).deadlock_detect_enabled && deadlocked(
                l.available@,
                l.need_after_request(tid as int, mutex_id as int),
                l.alloc_with_row(tid as int),
            );
            &&& holdings_kept(l, l2, mutex_id as int, tid as int, tid as int)
            &&& final(st).mutex_list@.len() == old(st).mutex_list@.len()
            &&& forall|j: int| 0 <= j < final(st).mutex_list@.len() && j != mutex_id
                ==> #[trigger] final(st).mutex_list@[j] == old(st).mutex_list@[j]
            &&& final(st).mutex_list@[mutex_id as int] is Some
            &&& m2.queues() == m.queues()
            &&& tid < l2.tasks()
            &&& refused || m.is_locked() ==> request_left_counted(l, l2, tid as int, mutex_id as int)
            &&& !refused && !m.is_locked() ==> request_granted(l, l2, tid as int, mutex_id as int)
            &&& refused ==> plain_outcome(o, DEADLOCK) && m2 == m
                && l2.held(tid as int, mutex_id as int) == l.held(tid as int, mutex_id as int)
            &&& !refused && !m.is_locked() ==> plain_outcome(o, 0) && m2.is_locked() && m2.waiters() == m.waiters()
                && l2.held(tid as int, mutex_id as int) == l.held(tid as int, mutex_id as int) + 1
            &&& !refused && m.is_locked() ==> o.ret == 0 && o.wake.is_none()
                && l2.held(tid as int, mutex_id as int) == l.held(tid as int, mutex_id as int)
                && m2.is_locked()
                && (if m.queues() {
                    o.action == Action::Block && m2.waiters() == m.waiters().push(tid)
                } else {
                    o.action == Action::Yield && m2.waiters() == m.waiters()
                })
        }),
        final(st).semaphore_list == old(st).semaphore_list,
        final(st).semaphore_ledger == old(st).semaphore_ledger,
        final(st).condvar_list == old(st).condvar_list,
        final(st).deadlock_detect_enabled == old(st).deadlock_detect_enabled,
{
    if mutex_id >= st.mutex_list.len() || st.mutex_list[mutex_id].is_none() {
        return Outcome { ret: INVALID, action: Action::Proceed, wake: None };
    }
    let ghost l0 = st.mutex_ledger;
    let ghost list0 = st.mutex_list@;
    st.mutex_ledger.add_task_rows(tid);
    let ghost la = st.mutex_ledger;
    proof {
        if tid < l0.tasks() {
            assert(st.mutex_ledger.need@[tid as int] == l0.need@[tid as int]);
        } else {
            assert(st.mutex_ledger.need@[tid as int]@[mutex_id as int] == 0);
        }
    }
    assert(st.mutex_ledger.held(tid as int, mutex_id as int) == l0.held(tid as int, mutex_id as int));
    st.mutex_ledger.request(tid, mutex_id);
    proof {
        lemma_mutexes_same_counts(list0, l0, st.mutex_ledger);
    }
    if st.deadlock_detect_enabled && st.mutex_ledger.is_deadlock() {
        return Outcome { ret: DEADLOCK, action: Action::Proceed, wake: None };
    }
    let ghost l1 = st.mutex_ledger;
    assert(mutex_agrees(list0, l1, mutex_id as int));
    let step = match &mut st.mutex_list[mutex_id] {
        Some(m) => m.lock(&mut st.mutex_ledger, tid, mutex_id),
        None => LockStep::Retry,
    };
    assert(st.mutex_list@ == list0.update(mutex_id as int, st.mutex_list@[mutex_id as int]));
    match step {
        LockStep::Acquired => {
            assert(l1.held(tid as int, mutex_id as int) == l0.held(tid as int, mutex_id as int));
            assert(grown(l1.need_view(), l1.slots(), (tid + 1) as nat) == l1.need_view());
            proof {
                lemma_request_then_grant(l0, la, l1, st.mutex_ledger, tid as int, mutex_id as int);
            }
            assert(st.mutex_ledger.held(tid as int, mutex_id as int) == l1.held(tid as int, mutex_id as int) + 1);
            proof {
                lemma_mutexes_one_changed(list0, l1, st.mutex_list@, st.mutex_ledger, mutex_id as int);
            }
            Outcome { ret: 0, action: Action::Proceed, wake: None }
        },
        LockStep::Retry => {
            proof {
                lemma_mutexes_one_changed(list0, l1, st.mutex_list@, st.mutex_ledger, mutex_id as int);
            }
            Outcome { ret: 0, action: Action::Yield, wake: None }
        },
        LockStep::Blocked => {
            proof {
                lemma_mutexes_one_changed(list0, l1, st.mutex_list@, st.mutex_ledger, mutex_id as int);
            }
            Outcome { ret: 0, action: Action::Block, wake: None }
        },
    }
}

/// Tries again, after a yield, a lock request that was already counted and
/// checked: takes the lock when it is free, else yields (retrying lock) or
/// blocks (queueing lock) again.
pub fn sys_mutex_lock_retry(st: &mut SyncState, tid: usize, mutex_id: usize) -> (o: Outcome)
    requires
        old(st).wf(),
        tid < usize::MAX,
    ensures
        final(st).wf(),
        !live(old(st).mutex_list@, mutex_id as int) ==> invalid_outcome(o) && *final(st) == *old(st),
        live(old(st).mutex_list@, mutex_id as int) ==> ({
            let m = old(st).mutex_list@[mutex_id as int]->Some_0;
            let m2 = final(st).mutex_list@[mutex_id as int]->Some_0;
            let l = old(st).mutex_ledger;
            let l2 = final(st).mutex_ledger;
            &&& holdings_kept(l, l2, mutex_id as int, tid as int, tid as int)
            &&& final(st).mutex_list@.len() == old(st).mutex_list@.len()
            &&& forall|j: int| 0 <= j < final(st).mutex_list@.len() && j != mutex_id
                ==> #[trigger] final(st).mutex_list@[j] == old(st).mutex_list@[j]
            &&& final(st).mutex_list@[mutex_id as int] is Some
            &&& m2.queues() == m.queues()
            &&& !m.is_locked() ==> plain_outcome(o, 0) && m2.is_locked() && m2.waiters() == m.waiters()
                && l2.held(tid as int, mutex_id as int) == l.held(tid as int, mutex_id as int) + 1
                && counted_request_granted(l, l2, tid as int, mutex_id as int)
            &&& m.is_locked() ==> o.ret == 0 && o.wake.is_none() && l2 == l && m2.is_locked()
                && (if m.queues() {
                    o.action == Action::Block && m2.waiters() == m.waiters().push(tid)
                } else {
                    o.action == Action::Yield && m2.waiters() == m.waiters()
                })
        }),
        final(st).semaphore_list == old(st).semaphore_list,
        final(st).semaphore_ledger == old(st).semaphore_ledger,
        final(st).condvar_list == old(st).condvar_list,
        final(st).deadlock_detect_enabled == old(st).deadlock_detect_enabled,
{
    if mutex_id >= st.mutex_list.len() || st.mutex_list[mutex_id].is_none() {
        return Outcome { ret: INVALID, action: Action::Proceed, wake: None };
    }
    let ghost list0 = st.mutex_list@;
    let ghost l0 = st.mutex_ledger;
    assert(mutex_agrees(list0, l0, mutex_id as int));
    let step = match &mut st.mutex_list[mutex_id] {
        Some(m) => m.lock(&mut st.mutex_ledger, tid, mutex_id),
        None => LockStep::Retry,
    };
    assert(st.mutex_list@ == list0.update(mutex_id as int, st.mutex_list@[mutex_id as int]));
    match step {
        LockStep::Acquired => {
            proof {
                lemma_mutexes_one_changed(list0, l0, st.mutex_list@, st.mutex_ledger, mutex_id as int);
            }
            Outcome { ret: 0, action: Action::Proceed, wake: None }
        },
        LockStep::Retry => {
            proof {
                lemma_mutexes_one_changed(list0, l0, st.mutex_list@, st.mutex_ledger, mutex_id as int);
            }
            Outcome { ret: 0, action: Action::Yield, wake: None }
        },
        LockStep::Blocked => {
            proof {
                lemma_mutexes_one_changed(list0, l0, st.mutex_list@, st.mutex_ledger, mutex_id as int);
            }
            Outcome { ret: 0, action: Action::Block, wake: None }
        },
    }
}

/// Releases lock `mutex_id`, held by task `tid`. The unit goes back to the
/// ledger first; then the lock is freed, or handed, still locked, to its
/// oldest waiter, which is charged the unit and woken.
pub fn sys_mutex_unlock(st: &mut SyncState, tid: usize, mutex_id: usize) -> (o: Outcome)
    requires
        old(st).wf(),
        live(old(st).mutex_list@, mutex_id as int) ==> old(st).mutex_ledger.held(tid as int, mutex_id as int) >= 1,
    ensures
        final(st).wf(),
        !live(old(st).mutex_list@, mutex_id as int) ==> invalid_outcome(o) && *final(st) == *old(st),
        live(old(st).mutex_list@, mutex_id as int) ==> ({
            let m = old(st).mutex_list@[mutex_id as int]->Some_0;
            let m2 = final(st).mutex_list@[mutex_id as int]->Some_0;
            let l = old(st).mutex_ledger;
            let l2 = final(st).mutex_ledger;
            &&& unit_released(l, l2, mutex_id as int, o.wake)
            &&& holdings_kept(l, l2, mutex_id as int, tid as int, if m.waiters().len() > 0 { m.waiters()[0] as int } else { tid as int })
            &&& final(st).mutex_list@.len() == old(st).mutex_list@.len()
            &&& forall|j: int| 0 <= j < final(st).mutex_list@.len() && j != mutex_id
                ==> #[trigger] final(st).mutex_list@[j] == old(st).mutex_list@[j]
            &&& final(st).mutex_list@[mutex_id as int] is Some
            &&& m2.queues() == m.queues()
            &&& o.ret == 0 && o.action == Action::Proceed
            &&& m.waiters().len() == 0 ==> o.wake.is_none() && !m2.is_locked() && m2.waiters() == m.waiters()
                && l2.held(tid as int, mutex_id as int) == l.held(tid as int, mutex_id as int) - 1
            &&& m.waiters().len() > 0 ==> o.wake == Some(m.waiters()[0]) && m2.is_locked()
                && m2.waiters() == m.waiters().drop_first()
                && l2.held(tid as int, mutex_id as int) == l.held(tid as int, mutex_id as int) - 1
                    + (if m.waiters()[0] == tid { 1int } else { 0int })
                && (m.waiters()[0] != tid ==> l2.held(m.waiters()[0] as int, mutex_id as int) == l.held(m.waiters()[0] as int, mutex_id as int) + 1)
        }),
        final(st).semaphore_list == old(st).semaphore_list,
        final(st).semaphore_ledger == old(st).semaphore_ledger,
        final(st).condvar_list == old(st).condvar_list,
        final(st).deadlock_detect_enabled == old(st).deadlock_detect_enabled,
{
    if mutex_id >= st.mutex_list.len() || st.mutex_list[mutex_id].is_none() {
        return Outcome { ret: INVALID, action: Action::Proceed, wake: None };
    }
    let ghost list0 = st.mutex_list@;
    proof {
        lemma_held_unit_not_free(st.mutex_ledger, tid as int, mutex_id as int);
        assert(mutex_agrees(list0, st.mutex_ledger, mutex_id as int));
    }
    st.mutex_ledger.release(tid, mutex_id);
    let step = match &mut st.mutex_list[mutex_id] {
        Some(m) => m.unlock(&mut st.mutex_ledger, mutex_id),
        None => UnlockStep::Released,
    };
    assert(st.mutex_list@ == list0.update(mutex_id as int, st.mutex_list@[mutex_id as int]));
    let w = match step {
        UnlockStep::HandedOff(t) => Some(t),
        UnlockStep::Released => None,
    };
    proof {
        if w.is_some() {
            assert(st.mutex_ledger.available@ =~= old(st).mutex_ledger.available@);
        }
    }
    proof {
        lemma_mutexes_one_changed(list0, old(st).mutex_ledger, st.mutex_list@, st.mutex_ledger, mutex_id as int);
    }
    Outcome { ret: 0, action: Action::Proceed, wake: w }
}

/// Creates a semaphore with `res_count` units in the lowest empty slot and
/// returns the slot. Its ledger column starts with `res_count` free units
/// and no requests or holdings.
#[verifier::spinoff_prover]
pub fn sys_semaphore_create(st: &mut SyncState, res_count: usize) -> (id: isize)
    requires
        old(st).wf(),
        old(st).semaphore_list@.len() < isize::MAX,
    ensures
        final(st).wf(),
        id == first_free(old(st).semaphore_list@),
        ({
            let s = final(st).semaphore_list@[id as int]->Some_0;
            &&& final(st).semaphore_list@ == placed(old(st).semaphore_list@, s)
            &&& s.count == res_count
            &&& s.wait_queue@.len() == 0
        }),
        slot_opened(old(st).semaphore_ledger, final(st).semaphore_ledger, id as int, res_count as int),
        final(st).mutex_list == old(st).mutex_list,
        final(st).mutex_ledger == old(st).mutex_ledger,
        final(st).condvar_list == old(st).condvar_list,
        final(st).deadlock_detect_enabled == old(st).deadlock_detect_enabled,
{
    let sem = Semaphore::new(res_count);
    let ghost sv = sem;
    proof {
        lemma_first_free(old(st).semaphore_list@, sv);
    }
    let i = place(&mut st.semaphore_list, sem);
    assert(i < isize::MAX);
    st.semaphore_ledger.open_slot(i, res_count);
    assert(st.semaphore_list@[i as int] == Some(sv));
    assert forall|j: int| 0 <= j < st.semaphore_list@.len() implies #[trigger] semaphore_agrees(st.semaphore_list@, st.semaphore_ledger, j) by {
        if j != i {
            assert(semaphore_agrees(old(st).semaphore_list@, old(st).semaphore_ledger, j));
            assert(st.semaphore_list@[j] == old(st).semaphore_list@[j]);
            assert(st.semaphore_ledger.available@[j] == old(st).semaphore_ledger.available@[j]);
        }
    }
    assert(slot_opened(old(st).semaphore_ledger, st.semaphore_ledger, i as int, res_count as int));
    let id = i as isize;
    assert(id as int == i as int);
    id
}

/// Gives back a unit of semaphore `sem_id` that task `tid` holds. The unit
/// returns to the ledger first; then it goes to the oldest waiter, which is
/// charged the unit and woken, or, when nobody waits, to the count.
pub fn sys_semaphore_up(st: &mut SyncState, tid: usize, sem_id: usize) -> (o: Outcome)
    requires
        old(st).wf(),
        live(old(st).semaphore_list@, sem_id as int) ==> old(st).semaphore_ledger.held(tid as int, sem_id as int) >= 1,
    ensures
        final(st).wf(),
        !live(old(st).semaphore_list@, sem_id as int) ==> invalid_outcome(o) && *final(st) == *old(st),
        live(old(st).semaphore_list@, sem_id as int) ==> ({
            let s = old(st).semaphore_list@[sem_id as int]->Some_0;
            let s2 = final(st).semaphore_list@[sem_id as int]->Some_0;
            let l = old(st).semaphore_ledger;
            let l2 = final(st).semaphore_ledger;
            &&& unit_released(l, l2, sem_id as int, o.wake)
            &&& holdings_kept(l, l2, sem_id as int, tid as int, if s.wait_queue@.len() > 0 { s.wait_queue@[0] as int } else { tid as int })
            &&& final(st).semaphore_list@.len() == old(st).semaphore_list@.len()
            &&& forall|j: int| 0 <= j < final(st).semaphore_list@.len() && j != sem_id
                ==> #[trigger] final(st).semaphore_list@[j] == old(st).semaphore_list@[j]
            &&& final(st).semaphore_list@[sem_id as int] is Some
            &&& o.ret == 0 && o.action == Action::Proceed
            &&& s.wait_queue@.len() == 0 ==> o.wake.is_none() && s2.count == s.count + 1
                && s2.wait_queue@ == s.wait_queue@
                && l2.held(tid as int, sem_id as int) == l.held(tid as int, sem_id as int) - 1
            &&& s.wait_queue@.len() > 0 ==> o.wake == Some(s.wait_queue@[0]) && s2.count == s.count
                && s2.wait_queue@ == s.wait_queue@.drop_first()
                && l2.held(tid as int, sem_id as int) == l.held(tid as int, sem_id as int) - 1
                    + (if s.wait_queue@[0] == tid { 1int } else { 0int })
                && (s.wait_queue@[0] != tid ==> l2.held(s.wait_queue@[0] as int, sem_id as int) == l.held(s.wait_queue@[0] as int, sem_id as int) + 1)
        }),
        final(st).mutex_list == old(st).mutex_list,
        final(st).mutex_ledger == old(st).mutex_ledger,
        final(st).condvar_list == old(st).condvar_list,
        final(st).deadlock_detect_enabled == old(st).deadlock_detect_enabled,
{
    if sem_id >= st.semaphore_list.len() || st.semaphore_list[sem_id].is_none() {
        return Outcome { ret: INVALID, action: Action::Proceed, wake: None };
    }
    let ghost list0 = st.semaphore_list@;
    proof {
        lemma_held_unit_not_free(st.semaphore_ledger, tid as int, sem_id as int);
        assert(semaphore_agrees(list0, st.semaphore_ledger, sem_id as int));
    }
    st.semaphore_ledger.release(tid, sem_id);
    let woken = match &mut st.semaphore_list[sem_id] {
        Some(sem) => sem.up(),
        None => None,
    };
    assert(st.semaphore_list@ == list0.update(sem_id as int, st.semaphore_list@[sem_id as int]));
    match woken {
        Some(t) => st.semaphore_ledger.give_unit(t, sem_id),
        None => {},
    }
    let w = woken;
    proof {
        if w.is_some() {
            assert(st.semaphore_ledger.available@ =~= old(st).semaphore_ledger.available@);
        }
    }
    proof {
        lemma_semaphores_one_changed(list0, old(st).semaphore_ledger, st.semaphore_list@, st.semaphore_ledger, sem_id as int);
    }
    Outcome { ret: 0, action: Action::Proceed, wake: w }
}

/// Asks for a unit of semaphore `sem_id` for task `tid`. The request is
/// counted first. With detection on, a request that would leave some task
/// unable to finish is refused with `DEADLOCK` and the semaphore is not
/// touched. Otherwise a free unit is taken, or the caller blocks until one
/// is handed to it.
/// Caveat: a refused request is not taken back. It stays counted in `need`,
/// so later safety checks see the task as still wanting that unit and may
/// refuse requests they would otherwise let through.
pub fn sys_semaphore_down(st: &mut SyncState, tid: usize, sem_id: usize) -> (o: Outcome)
    requires
        old(st).wf(),
        tid < usize::MAX,
    ensures
        final(st).wf(),
        !old(st).deadlock_detect_enabled ==> o.ret != DEADLOCK,
        !live(old(st).semaphore_list@, sem_id as int) ==> invalid_outcome(o) && *final(st) == *old(st),
        live(old(st).semaphore_list@, sem_id as int) ==> ({
            let s = old(st).semaphore_list@[sem_id as int]->Some_0;
            let s2 = final(st).semaphore_list@[sem_id as int]->Some_0;
            let l = old(st).semaphore_ledger;
            let l2 = final(st).semaphore_ledger;
            let refused = old(st).deadlock_detect_enabled && deadlocked(
                l.available@,
                l.need_after_request(tid as int, sem_id as int),
                l.alloc_with_row(tid as int),
            );
            &&& holdings_kept(l, l2, sem_id as int, tid as int, tid as int)
            &&& final(st).semaphore_list@.len() == old(st).semaphore_list@.len()
            &&& forall|j: int| 0 <= j < final(st).semaphore_list@.len() && j != sem_id
                ==> #[trigger] final(st).semaphore_list@[j] == old(st).semaphore_list@[j]
            &&& final(st).semaphore_list@[sem_id as int] is Some
            &&& tid < l2.tasks()
            &&& refused || s.count == 0 ==> request_left_counted(l, l2, tid as int, sem_id as int)
            &&& !refused && s.count > 0 ==> request_granted(l, l2, tid as int, sem_id as int)
            &&& refused ==> plain_outcome(o, DEADLOCK) && s2 == s
                && l2.held(tid as int, sem_id as int) == l.held(tid as int, sem_id as int)
            &&& !refused && s.count > 0 ==> plain_outcome(o, 0) && s2.count == s.count - 1
                && s2.wait_queue@ == s.wait_queue@
                && l2.held(tid as int, sem_id as int) == l.held(tid as int, sem_id as int) + 1
            &&& !refused && s.count == 0 ==> o.ret == 0 && o.action == Action::Block && o.wake.is_none()
                && s2.count == 0 && s2.wait_queue@ == s.wait_queue@.push(tid)
                && l2.held(tid as int, sem_id as int) == l.held(tid as int, sem_id as int)
        }),
        final(st).mutex_list == old(st).mutex_list,
        final(st).mutex_ledger == old(st).mutex_ledger,
        final(st).condvar_list == old(st).condvar_list,
        final(st).deadlock_detect_enabled == old(st).deadlock_detect_enabled,
{
    if sem_id >= st.semaphore_list.len() || st.semaphore_list[sem_id].is_none() {
        return Outcome { ret: INVALID, action: Action::Proceed, wake: None };
    }
    let ghost l0 = st.semaphore_ledger;
    let ghost list0 = st.semaphore_list@;
    st.semaphore_ledger.add_task_rows(tid);
    let ghost la = st.semaphore_ledger;
    st.semaphore_ledger.request(tid, sem_id);
    proof {
        lemma_semaphores_same_counts(list0, l0, st.semaphore_ledger);
    }
    if st.deadlock_detect_enabled && st.semaphore_ledger.is_deadlock() {
        return Outcome { ret: DEADLOCK, action: Action::Proceed, wake: None };
    }
    let ghost l1 = st.semaphore_ledger;
    assert(semaphore_agrees(list0, l1, sem_id as int));
    let step = match &mut st.semaphore_list[sem_id] {
        Some(sem) => sem.down(tid),
        None => DownStep::Blocked,
    };
    assert(st.semaphore_list@ == list0.update(sem_id as int, st.semaphore_list@[sem_id as int]));
    match step {
        DownStep::Acquired => {
            st.semaphore_ledger.grant(tid, sem_id);
            proof {
                lemma_request_then_grant(l0, la, l1, st.semaphore_ledger, tid as int, sem_id as int);
            }
            proof {
                lemma_semaphores_one_changed(list0, l1, st.semaphore_list@, st.semaphore_ledger, sem_id as int);
            }
            Outcome { ret: 0, action: Action::Proceed, wake: None }
        },
        DownStep::Blocked => {
            proof {
                lemma_semaphores_one_changed(list0, l1, st.semaphore_list@, st.semaphore_ledger, sem_id as int);
            }
            Outcome { ret: 0, action: Action::Block, wake: None }
        },
    }
}

/// Creates a condition variable in the lowest empty slot and returns the
/// slot. The argument is not used.
pub fn sys_condvar_create(st: &mut SyncState, _arg: usize) -> (id: isize)
    requires
        old(st).wf(),
        old(st).condvar_list@.len() < isize::MAX,
    ensures
        final(st).wf(),
        id == first_free(old(st).condvar_list@),
        ({
            let c = final(st).condvar_list@[id as int]->Some_0;
            &&& final(st).condvar_list@ == placed(old(st).condvar_list@, c)
            &&& c.wait_queue@.len() == 0
        }),
        final(st).mutex_list == old(st).mutex_list,
        final(st).mutex_ledger == old(st).mutex_ledger,
        final(st).semaphore_list == old(st).semaphore_list,
        final(st).semaphore_ledger == old(st).semaphore_ledger,
        final(st).deadlock_detect_enabled == old(st).deadlock_detect_enabled,
{
    let c = Condvar::new();
    let ghost cv = c;
    proof {
        lemma_first_free(old(st).condvar_list@, cv);
    }
    let i = place(&mut st.condvar_list, c);
    assert(i < isize::MAX);
    assert(st.condvar_list@[i as int] == Some(cv));
    let id = i as isize;
    assert(id as int == i as int);
    id
}

/// Wakes the oldest task waiting on condition variable `condvar_id`, if
/// any. A signal with nobody waiting changes nothing.
pub fn sys_condvar_signal(st: &mut SyncState, condvar_id: usize) -> (o: Outcome)
    requires
        old(st).wf(),
    ensures
        final(st).wf(),
        !live(old(st).condvar_list@, condvar_id as int) ==> invalid_outcome(o) && *final(st) == *old(st),
        live(old(st).condvar_list@, condvar_id as int) ==> ({
            let c = old(st).condvar_list@[condvar_id as int]->Some_0;
            let c2 = final(st).condvar_list@[condvar_id as int]->Some_0;
            &&& final(st).condvar_list@ == old(st).condvar_list@.update(condvar_id as int, Some(c2))
            &&& o.ret == 0 && o.action == Action::Proceed
            &&& c.wait_queue@.len() == 0 ==> o.wake.is_none() && c2.wait_queue@ == c.wait_queue@
            &&& c.wait_queue@.len() > 0 ==> o.wake == Some(c.wait_queue@[0])
                && c2.wait_queue@ == c.wait_queue@.drop_first()
        }),
        final(st).mutex_list == old(st).mutex_list,
        final(st).mutex_ledger == old(st).mutex_ledger,
        final(st).semaphore_list == old(st).semaphore_list,
        final(st).semaphore_ledger == old(st).semaphore_ledger,
        final(st).deadlock_detect_enabled == old(st).deadlock_detect_enabled,
{
    if condvar_id >= st.condvar_list.len() || st.condvar_list[condvar_id].is_none() {
        return Outcome { ret: INVALID, action: Action::Proceed, wake: None };
    }
    let ghost list0 = st.condvar_list@;
    let w = match &mut st.condvar_list[condvar_id] {
        Some(c) => c.signal(),
        None => None,
    };
    assert(st.condvar_list@ == list0.update(condvar_id as int, st.condvar_list@[condvar_id as int]));
    Outcome { ret: 0, action: Action::Proceed, wake: w }
}

/// Task `tid` waits on condition variable `condvar_id`, releasing lock
/// `mutex_id`, which it holds, as `sys_mutex_unlock` does. The caller
/// blocks; once woken it does not hold the lock.
pub fn sys_condvar_wait(st: &mut SyncState, tid: usize, condvar_id: usize, mutex_id: usize) -> (o: Outcome)
    requires
        old(st).wf(),
        live(old(st).condvar_list@, condvar_id as int) && live(old(st).mutex_list@, mutex_id as int)
            ==> old(st).mutex_ledger.held(tid as int, mutex_id as int) >= 1,
    ensures
        final(st).wf(),
        !(live(old(st).condvar_list@, condvar_id as int) && live(old(st).mutex_list@, mutex_id as int))
            ==> invalid_outcome(o) && *final(st) == *old(st),
        live(old(st).condvar_list@, condvar_id as int) && live(old(st).mutex_list@, mutex_id as int) ==> ({
            let c = old(st).condvar_list@[condvar_id as int]->Some_0;
            let c2 = final(st).condvar_list@[condvar_id as int]->Some_0;
            let m = old(st).mutex_list@[mutex_id as int]->Some_0;
            let m2 = final(st).mutex_list@[mutex_id as int]->Some_0;
            let l = old(st).mutex_ledger;
            let l2 = final(st).mutex_ledger;
            &&& final(st).condvar_list@ == old(st).condvar_list@.update(condvar_id as int, Some(c2))
            &&& final(st).mutex_list@ == old(st).mutex_list@.update(mutex_id as int, Some(m2))
            &&& unit_released(l, l2, mutex_id as int, o.wake)
            &&& holdings_kept(l, l2, mutex_id as int, tid as int, if m.waiters().len() > 0 { m.waiters()[0] as int } else { tid as int })
            &&& c2.wait_queue@ == c.wait_queue@.push(tid)
            &&& m2.queues() == m.queues()
            &&& o.ret == 0 && o.action == Action::Block
            &&& m.waiters().len() == 0 ==> o.wake.is_none() && !m2.is_locked() && m2.waiters() == m.waiters()
                && l2.held(tid as int, mutex_id as int) == l.held(tid as int, mutex_id as int) - 1
            &&& m.waiters().len() > 0 ==> o.wake == Some(m.waiters()[0]) && m2.is_locked()
                && m2.waiters() == m.waiters().drop_first()
                && l2.held(tid as int, mutex_id as int) == l.held(tid as int, mutex_id as int) - 1
                    + (if m.waiters()[0] == tid { 1int } else { 0int })
                && (m.waiters()[0] != tid ==> l2.held(m.waiters()[0] as int, mutex_id as int) == l.held(m.waiters()[0] as int, mutex_id as int) + 1)
        }),
        final(st).semaphore_list == old(st).semaphore_list,
        final(st).semaphore_ledger == old(st).semaphore_ledger,
        final(st).deadlock_detect_enabled == old(st).deadlock_detect_enabled,
{
    if condvar_id >= st.condvar_list.len() || st.condvar_list[condvar_id].is_none() || mutex_id
        >= st.mutex_list.len() || st.mutex_list[mutex_id].is_none() {
        return Outcome { ret: INVALID, action: Action::Proceed, wake: None };
    }
    let ghost list0 = st.mutex_list@;
    let ghost clist0 = st.condvar_list@;
    proof {
        lemma_held_unit_not_free(st.mutex_ledger, tid as int, mutex_id as int);
        assert(mutex_agrees(list0, st.mutex_ledger, mutex_id as int));
    }
    st.mutex_ledger.release(tid, mutex_id);
    let step = match &mut st.condvar_list[condvar_id] {
        Some(c) => match &mut st.mutex_list[mutex_id] {
            Some(m) => c.wait(m, &mut st.mutex_ledger, mutex_id, tid),
            None => UnlockStep::Released,
        },
        None => UnlockStep::Released,
    };
    assert(st.mutex_list@ == list0.update(mutex_id as int, st.mutex_list@[mutex_id as int]));
    assert(st.condvar_list@ == clist0.update(condvar_id as int, st.condvar_list@[condvar_id as int]));
    let w = match step {
        UnlockStep::HandedOff(t) => Some(t),
        UnlockStep::Released => None,
    };
    proof {
        if w.is_some() {
            assert(st.mutex_ledger.available@ =~= old(st).mutex_ledger.available@);
        }
    }
    proof {
        lemma_mutexes_one_changed(list0, old(st).mutex_ledger, st.mutex_list@, st.mutex_ledger, mutex_id as int);
    }
    Outcome { ret: 0, action: Action::Block, wake: w }
}

/// Turns deadlock detection off (`0`) or on (`1`); any other value is
/// refused with `INVALID` and changes nothing.
pub fn sys_enable_deadlock_detect(st: &mut SyncState, enabled: usize) -> (r: isize)
    requires
        old(st).wf(),
    ensures
        final(st).wf(),
        enabled == 0 ==> r == 0 && *final(st) == (SyncState { deadlock_detect_enabled: false, ..*old(st) }),
        enabled == 1 ==> r == 0 && *final(st) == (SyncState { deadlock_detect_enabled: true, ..*old(st) }),
        enabled > 1 ==> r == INVALID && *final(st) == *old(st),
{
    match enabled {
        0 => {
            st.deadlock_detect_enabled = false;
            0
        },
        1 => {
            st.deadlock_detect_enabled = true;
            0
        },
        _ => INVALID,
    }
}

/// Puts the caller to sleep for `ms` milliseconds from `now_ms`; a wake
/// time past the clock's range is held at its top.
pub fn sys_sleep(now_ms: usize, ms: usize) -> (o: Outcome)
    ensures
        o.ret == 0,
        o.wake.is_none(),
        o.action == Action::SleepUntil(
            if now_ms + ms > usize::MAX { usize::MAX } else { (now_ms + ms) as usize },
        ),
{
    Outcome { ret: 0, action: Action::SleepUntil(now_ms.saturating_add(ms)), wake: None }
}

/// Ledger changes that keep every slot's free units keep the semaphore
/// table in agreement.
proof fn lemma_semaphores_same_counts(list: Seq<Option<Semaphore>>, l: Ledger, l2: Ledger)
    requires
        semaphores_wf(list, l),
        l2.wf(),
        l2.available == l.available,
    ensures
        semaphores_wf(list, l2),
{
    assert forall|i: int| 0 <= i < list.len() implies #[trigger] semaphore_agrees(list, l2, i) by {
        assert(semaphore_agrees(list, l, i));
    }
}

/// A change to slot `k` alone that leaves it in agreement keeps the
/// semaphore table in agreement.
proof fn lemma_semaphores_one_changed(
    list: Seq<Option<Semaphore>>,
    l: Ledger,
    list2: Seq<Option<Semaphore>>,
    l2: Ledger,
    k: int,
)
    requires
        semaphores_wf(list, l),
        l2.wf(),
        0 <= k < list.len(),
        list2 == list.update(k, list2[k]),
        l2.slots() == l.slots(),
        forall|i: int| 0 <= i < list.len() && i != k ==> #[trigger] l2.available@[i] == l.available@[i],
        semaphore_agrees(list2, l2, k),
    ensures
        semaphores_wf(list2, l2),
{
    assert forall|i: int| 0 <= i < list2.len() implies #[trigger] semaphore_agrees(list2, l2, i) by {
        if i != k {
            assert(semaphore_agrees(list, l, i));
            assert(l2.available@[i] == l.available@[i]);
        }
    }
}

/// In every well-formed state, each lock's and each semaphore's units are
/// all accounted for: the free units plus the units every task holds make
/// up the units the resource was created with.
pub proof fn lemma_units_conserved(st: SyncState)
    requires
        st.wf(),
    ensures
        forall|r: int| 0 <= r < st.mutex_list@.len() ==> #[trigger] st.mutex_ledger.available@[r]
            + col_sum(st.mutex_ledger.allocation@, r) == st.mutex_ledger.total@[r],
        forall|r: int| 0 <= r < st.semaphore_list@.len() ==> #[trigger] st.semaphore_ledger.available@[r]
            + col_sum(st.semaphore_ledger.allocation@, r) == st.semaphore_ledger.total@[r],
{
    assert forall|r: int| 0 <= r < st.mutex_list@.len() implies #[trigger] st.mutex_ledger.available@[r]
        + col_sum(st.mutex_ledger.allocation@, r) == st.mutex_ledger.total@[r] by {
        assert(st.mutex_ledger.conserved(r));
    }
    assert forall|r: int| 0 <= r < st.semaphore_list@.len() implies #[trigger] st.semaphore_ledger.available@[r]
        + col_sum(st.semaphore_ledger.allocation@, r) == st.semaphore_ledger.total@[r] by {
        assert(st.semaphore_ledger.conserved(r));
    }
}

/// While some task holds a lock's unit, including a task the lock was just
/// handed to, the lock stays locked with no free unit, so no other task's
/// lock call can be granted it until that task releases it.
pub proof fn lemma_held_lock_excludes(st: SyncState, mutex_id: int, holder: int)
    requires
        st.wf(),
        live(st.mutex_list@, mutex_id),
        st.mutex_ledger.held(holder, mutex_id) >= 1,
    ensures
        st.mutex_list@[mutex_id]->Some_0.is_locked(),
        st.mutex_ledger.available@[mutex_id] == 0,
        forall|t: int| t != holder ==> #[trigger] st.mutex_ledger.held(t, mutex_id) == 0,
{
    lemma_held_unit_not_free(st.mutex_ledger, holder, mutex_id);
    assert(mutex_agrees(st.mutex_list@, st.mutex_ledger, mutex_id));
    assert(st.mutex_ledger.conserved(mutex_id));
    assert forall|t: int| t != holder implies #[trigger] st.mutex_ledger.held(t, mutex_id) == 0 by {
        if 0 <= t < st.mutex_ledger.tasks() {
            lemma_two_entries_le_col_sum(st.mutex_ledger.allocation@, t, holder, mutex_id);
        }
    }
}

/// Creating a resource, emptying its slot again, and creating another puts
/// the second one in the same slot as the first.
pub proof fn lemma_slot_reuse<T>(list: Seq<Option<T>>, x: T)
    ensures
        first_free(placed(list, x).update(first_free(list), None)) == first_free(list),
{
    lemma_first_free(list, x);
    let i = first_free(list);
    let l2 = placed(list, x).update(i, None);
    assert(lowest_free(l2, i)) by {
        if exists|c: int| lowest_free(list, c) {
            let c = choose|c: int| lowest_free(list, c);
            assert(lowest_free(list, c));
        }
        assert forall|j: int| 0 <= j < i implies l2[j] is Some by {
            if exists|c: int| lowest_free(list, c) {
                let c = choose|c: int| lowest_free(list, c);
                assert(list[j] is Some);
            } else {
                if list[j] is None {
                    assert(lowest_free(list, j) || exists|c: int| 0 <= c < j && list[c] is None);
                    lemma_some_lowest_free(list, j);
                }
            }
        }
    }
    let c = choose|c: int| lowest_free(l2, c);
    assert(lowest_free(l2, c));
    assert(c == i) by {
        if c < i {
        } else if c > i {
        }
    }
}

/// An empty slot means some lowest empty slot exists.
proof fn lemma_some_lowest_free<T>(list: Seq<Option<T>>, j: int)
    requires
        0 <= j < list.len(),
        list[j] is None,
    ensures
        exists|c: int| lowest_free(list, c),
    decreases j,
{
    if forall|k: int| 0 <= k < j ==> list[k] is Some {
        assert(lowest_free(list, j));
    } else {
        let k = choose|k: int| 0 <= k < j && !(list[k] is Some);
        lemma_some_lowest_free(list, k);
    }
}

/// Rows added for task `t`, its request for slot `r` counted, then granted:
/// the ledger ends as `request_granted` says.
proof fn lemma_request_then_grant(l0: Ledger, la: Ledger, l1: Ledger, l2: Ledger, t: int, r: int)
    requires
        la.wf(),
        0 <= r < l0.slots(),
        0 <= t < la.tasks(),
        la.need_view() == grown(l0.need_view(), l0.slots(), (t + 1) as nat),
        la.available == l0.available,
        la.total == l0.total,
        l1.need_view() == bumped(la.need_view(), t, r),
        l1.available == la.available,
        l1.total == la.total,
        l2.need_view() == lowered(l1.need_view(), t, r),
        l2.available@ == l1.available@.update(r, (l1.available@[r] - 1) as usize),
        l2.total == l1.total,
    ensures
        request_granted(l0, l2, t, r),
{
    assert(la.need@[t]@.len() == la.slots());
    assert(la.need_view()[t] == la.need@[t]@);
    if grown(l0.need_view(), l0.slots(), (t + 1) as nat)[t][r] < usize::MAX {
        lemma_lowered_bumped(la.need_view(), t, r);
    }
}

/// Ledger changes that keep every slot's free and total units keep the
/// lock table in agreement.
proof fn lemma_mutexes_same_counts(list: Seq<Option<AnyMutex>>, l: Ledger, l2: Ledger)
    requires
        mutexes_wf(list, l),
        l2.wf(),
        l2.available == l.available,
        l2.total == l.total,
    ensures
        mutexes_wf(list, l2),
{
    assert forall|i: int| 0 <= i < list.len() implies #[trigger] mutex_agrees(list, l2, i) by {
        assert(mutex_agrees(list, l, i));
    }
}

/// A change to slot `k` alone that leaves it in agreement keeps the lock
/// table in agreement.
proof fn lemma_mutexes_one_changed(
    list: Seq<Option<AnyMutex>>,
    l: Ledger,
    list2: Seq<Option<AnyMutex>>,
    l2: Ledger,
    k: int,
)
    requires
        mutexes_wf(list, l),
        l2.wf(),
        0 <= k < list.len(),
        list2 == list.update(k, list2[k]),
        l2.slots() == l.slots(),
        forall|i: int| 0 <= i < list.len() && i != k ==> #[trigger] l2.available@[i] == l.available@[i]
            && l2.total@[i] == l.total@[i],
        mutex_agrees(list2, l2, k),
    ensures
        mutexes_wf(list2, l2),
{
    assert forall|i: int| 0 <= i < list2.len() implies #[trigger] mutex_agrees(list2, l2, i) by {
        if i != k {
            assert(mutex_agrees(list, l, i));
            assert(l2.available@[i] == l.available@[i]);
        }
    }
}

} // verus!
