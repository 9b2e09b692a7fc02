use os8_sync::ledger::Ledger;
use os8_sync::syscall::{
    sys_condvar_create, sys_condvar_signal, sys_condvar_wait, sys_enable_deadlock_detect,
    sys_mutex_create, sys_mutex_lock, sys_mutex_lock_retry, sys_mutex_unlock, sys_semaphore_create,
    sys_semaphore_down, sys_semaphore_up, sys_sleep, Action, Outcome, SyncState, DEADLOCK, INVALID,
};

fn proceed(ret: isize) -> Outcome {
    Outcome { ret, action: Action::Proceed, wake: None }
}

fn held(l: &Ledger, t: usize, r: usize) -> usize {
    if t < l.allocation.len() {
        l.allocation[t][r]
    } else {
        0
    }
}

fn conserved(l: &Ledger) -> bool {
    (0..l.available.len()).all(|r| {
        l.available[r] + l.allocation.iter().map(|row| row[r]).sum::<usize>() == l.total[r]
    })
}

#[test]
fn ledger_conserved_through_calls() {
    let mut st = SyncState::new();
    let m = sys_mutex_create(&mut st, true) as usize;
    let s = sys_semaphore_create(&mut st, 3) as usize;
    sys_mutex_lock(&mut st, 0, m);
    assert!(conserved(&st.mutex_ledger));
    sys_mutex_lock(&mut st, 1, m);
    sys_semaphore_down(&mut st, 2, s);
    sys_semaphore_down(&mut st, 3, s);
    assert!(conserved(&st.semaphore_ledger));
    sys_mutex_unlock(&mut st, 0, m);
    assert!(conserved(&st.mutex_ledger));
    sys_semaphore_up(&mut st, 2, s);
    assert!(conserved(&st.semaphore_ledger));
    assert_eq!(st.semaphore_ledger.available[s], 2);
    assert_eq!(st.semaphore_list[s].as_ref().unwrap().count, 2);
}

#[test]
fn grant_charges_the_caller() {
    let mut st = SyncState::new();
    let m = sys_mutex_create(&mut st, true) as usize;
    assert_eq!(sys_mutex_lock(&mut st, 4, m), proceed(0));
    assert_eq!(held(&st.mutex_ledger, 4, m), 1);
    assert_eq!(st.mutex_ledger.need[4][m], 0);
    assert_eq!(st.mutex_ledger.available[m], 0);
    let o = sys_mutex_lock(&mut st, 2, m);
    assert_eq!(o.action, Action::Block);
    assert_eq!(held(&st.mutex_ledger, 2, m), 0);
    assert_eq!(st.mutex_ledger.need[2][m], 1);
}

#[test]
fn unlock_hands_lock_to_oldest_waiter() {
    let mut st = SyncState::new();
    let m = sys_mutex_create(&mut st, true) as usize;
    assert_eq!(sys_mutex_lock(&mut st, 0, m), proceed(0));
    assert_eq!(sys_mutex_lock(&mut st, 1, m).action, Action::Block);
    assert_eq!(sys_mutex_lock(&mut st, 2, m).action, Action::Block);
    let o = sys_mutex_unlock(&mut st, 0, m);
    assert_eq!(o, Outcome { ret: 0, action: Action::Proceed, wake: Some(1) });
    assert_eq!(held(&st.mutex_ledger, 0, m), 0);
    assert_eq!(held(&st.mutex_ledger, 1, m), 1);
    assert_eq!(st.mutex_ledger.available[m], 0);
    // a newcomer cannot take the unit that was handed over
    assert_eq!(sys_mutex_lock(&mut st, 3, m).action, Action::Block);
    let o = sys_mutex_unlock(&mut st, 1, m);
    assert_eq!(o.wake, Some(2));
    let o = sys_mutex_unlock(&mut st, 2, m);
    assert_eq!(o.wake, Some(3));
    let o = sys_mutex_unlock(&mut st, 3, m);
    assert_eq!(o, proceed(0));
    assert_eq!(st.mutex_ledger.available[m], 1);
}

#[test]
fn spin_lock_makes_contender_retry() {
    let mut st = SyncState::new();
    let m = sys_mutex_create(&mut st, false) as usize;
    assert_eq!(sys_mutex_lock(&mut st, 0, m), proceed(0));
    let o = sys_mutex_lock(&mut st, 1, m);
    assert_eq!(o, Outcome { ret: 0, action: Action::Yield, wake: None });
    assert_eq!(sys_mutex_lock_retry(&mut st, 1, m).action, Action::Yield);
    assert_eq!(sys_mutex_unlock(&mut st, 0, m), proceed(0));
    assert_eq!(sys_mutex_lock_retry(&mut st, 1, m), proceed(0));
    assert_eq!(held(&st.mutex_ledger, 1, m), 1);
    assert_eq!(st.mutex_ledger.need[1][m], 0);
}

#[test]
fn safety_check_finds_crossed_wait() {
    let l = Ledger {
        total: vec![1, 1],
        available: vec![0, 0],
        need: vec![vec![0, 1], vec![1, 0]],
        allocation: vec![vec![1, 0], vec![0, 1]],
    };
    assert!(l.is_deadlock());
}

#[test]
fn safety_check_passes_completable_state() {
    let l = Ledger {
        total: vec![1, 1],
        available: vec![0, 0],
        need: vec![vec![0, 1], vec![0, 0]],
        allocation: vec![vec![1, 0], vec![0, 1]],
    };
    assert!(!l.is_deadlock());
    assert!(!Ledger::new().is_deadlock());
}

#[test]
fn detection_refuses_crossed_lock() {
    let mut st = SyncState::new();
    assert_eq!(sys_enable_deadlock_detect(&mut st, 1), 0);
    let a = sys_mutex_create(&mut st, true) as usize;
    let b = sys_mutex_create(&mut st, true) as usize;
    assert_eq!(sys_mutex_lock(&mut st, 0, a), proceed(0));
    assert_eq!(sys_mutex_lock(&mut st, 1, b), proceed(0));
    assert_eq!(sys_mutex_lock(&mut st, 0, b).action, Action::Block);
    let o = sys_mutex_lock(&mut st, 1, a);
    assert_eq!(o, proceed(DEADLOCK));
    assert_eq!(DEADLOCK, -0xDEAD);
    // the request stays counted, and nothing was queued on the lock
    assert_eq!(st.mutex_ledger.need[1][a], 1);
    assert_eq!(held(&st.mutex_ledger, 1, a), 0);
}

#[test]
fn detection_off_lets_both_block() {
    let mut st = SyncState::new();
    let a = sys_mutex_create(&mut st, true) as usize;
    let b = sys_mutex_create(&mut st, true) as usize;
    assert_eq!(sys_mutex_lock(&mut st, 0, a), proceed(0));
    assert_eq!(sys_mutex_lock(&mut st, 1, b), proceed(0));
    assert_eq!(sys_mutex_lock(&mut st, 0, b).action, Action::Block);
    let o = sys_mutex_lock(&mut st, 1, a);
    assert_eq!(o, Outcome { ret: 0, action: Action::Block, wake: None });
    assert!(st.mutex_ledger.is_deadlock());
}

#[test]
fn detection_refuses_semaphore_down() {
    let mut st = SyncState::new();
    sys_enable_deadlock_detect(&mut st, 1);
    let a = sys_semaphore_create(&mut st, 1) as usize;
    let b = sys_semaphore_create(&mut st, 1) as usize;
    assert_eq!(sys_semaphore_down(&mut st, 0, a), proceed(0));
    assert_eq!(sys_semaphore_down(&mut st, 1, b), proceed(0));
    assert_eq!(sys_semaphore_down(&mut st, 0, b).action, Action::Block);
    assert_eq!(sys_semaphore_down(&mut st, 1, a), proceed(DEADLOCK));
}

#[test]
fn semaphore_hands_unit_to_third_task() {
    let mut st = SyncState::new();
    let s = sys_semaphore_create(&mut st, 2) as usize;
    assert_eq!(sys_semaphore_down(&mut st, 0, s), proceed(0));
    assert_eq!(sys_semaphore_down(&mut st, 1, s), proceed(0));
    assert_eq!(st.semaphore_list[s].as_ref().unwrap().count, 0);
    let o = sys_semaphore_down(&mut st, 2, s);
    assert_eq!(o, Outcome { ret: 0, action: Action::Block, wake: None });
    let o = sys_semaphore_up(&mut st, 0, s);
    assert_eq!(o, Outcome { ret: 0, action: Action::Proceed, wake: Some(2) });
    assert_eq!(st.semaphore_list[s].as_ref().unwrap().count, 0);
    assert_eq!(st.semaphore_ledger.available[s], 0);
    assert_eq!(held(&st.semaphore_ledger, 2, s), 1);
    assert_eq!(held(&st.semaphore_ledger, 0, s), 0);
}

#[test]
fn condvar_wait_releases_lock() {
    let mut st = SyncState::new();
    let m = sys_mutex_create(&mut st, true) as usize;
    let c = sys_condvar_create(&mut st, 0) as usize;
    let idle = sys_condvar_create(&mut st, 0) as usize;
    assert_eq!((c, idle), (0, 1));
    assert_eq!(sys_mutex_lock(&mut st, 0, m), proceed(0));
    let o = sys_condvar_wait(&mut st, 0, c, m);
    assert_eq!(o, Outcome { ret: 0, action: Action::Block, wake: None });
    assert_eq!(sys_mutex_lock(&mut st, 1, m), proceed(0));
    assert_eq!(sys_condvar_signal(&mut st, idle), proceed(0));
    let o = sys_condvar_signal(&mut st, c);
    assert_eq!(o, Outcome { ret: 0, action: Action::Proceed, wake: Some(0) });
    assert_eq!(sys_condvar_signal(&mut st, c), proceed(0));
}

#[test]
fn condvar_wait_hands_lock_to_waiter() {
    let mut st = SyncState::new();
    let m = sys_mutex_create(&mut st, true) as usize;
    let c = sys_condvar_create(&mut st, 0) as usize;
    assert_eq!(sys_mutex_lock(&mut st, 0, m), proceed(0));
    assert_eq!(sys_mutex_lock(&mut st, 1, m).action, Action::Block);
    let o = sys_condvar_wait(&mut st, 0, c, m);
    assert_eq!(o, Outcome { ret: 0, action: Action::Block, wake: Some(1) });
    assert_eq!(held(&st.mutex_ledger, 1, m), 1);
}

#[test]
fn freed_slot_is_reused_with_fresh_rows() {
    let mut st = SyncState::new();
    let a = sys_mutex_create(&mut st, true);
    let b = sys_mutex_create(&mut st, false);
    assert_eq!((a, b), (0, 1));
    sys_mutex_lock(&mut st, 3, 0);
    assert_eq!(held(&st.mutex_ledger, 3, 0), 1);
    st.mutex_list[0] = None;
    assert_eq!(sys_mutex_create(&mut st, true), 0);
    assert_eq!(held(&st.mutex_ledger, 3, 0), 0);
    assert_eq!(st.mutex_ledger.need[3][0], 0);
    assert_eq!(st.mutex_ledger.available[0], 1);
    assert_eq!(sys_mutex_create(&mut st, true), 2);

    let s = sys_semaphore_create(&mut st, 4);
    assert_eq!(s, 0);
    sys_semaphore_down(&mut st, 1, 0);
    st.semaphore_list[0] = None;
    assert_eq!(sys_semaphore_create(&mut st, 7), 0);
    assert_eq!(st.semaphore_ledger.available[0], 7);
    assert_eq!(held(&st.semaphore_ledger, 1, 0), 0);

    sys_condvar_create(&mut st, 0);
    sys_condvar_create(&mut st, 0);
    st.condvar_list[0] = None;
    assert_eq!(sys_condvar_create(&mut st, 0), 0);
}

#[test]
fn unknown_ids_are_refused() {
    let mut st = SyncState::new();
    assert_eq!(sys_mutex_lock(&mut st, 0, 0), proceed(INVALID));
    assert_eq!(sys_mutex_unlock(&mut st, 0, 5), proceed(INVALID));
    assert_eq!(sys_mutex_lock_retry(&mut st, 0, 0), proceed(INVALID));
    assert_eq!(sys_semaphore_down(&mut st, 0, 0), proceed(INVALID));
    assert_eq!(sys_semaphore_up(&mut st, 0, 0), proceed(INVALID));
    assert_eq!(sys_condvar_signal(&mut st, 0), proceed(INVALID));
    let m = sys_mutex_create(&mut st, true) as usize;
    assert_eq!(sys_condvar_wait(&mut st, 0, 0, m), proceed(INVALID));
    st.mutex_list[m] = None;
    assert_eq!(sys_mutex_lock(&mut st, 0, m), proceed(INVALID));
    assert_eq!(INVALID, -1);
}

#[test]
fn detection_toggle_accepts_only_zero_and_one() {
    let mut st = SyncState::new();
    assert!(!st.deadlock_detect_enabled);
    assert_eq!(sys_enable_deadlock_detect(&mut st, 1), 0);
    assert!(st.deadlock_detect_enabled);
    assert_eq!(sys_enable_deadlock_detect(&mut st, 2), -1);
    assert!(st.deadlock_detect_enabled);
    assert_eq!(sys_enable_deadlock_detect(&mut st, 0), 0);
    assert!(!st.deadlock_detect_enabled);
}

#[test]
fn sleep_sets_wake_time() {
    assert_eq!(sys_sleep(100, 50), Outcome { ret: 0, action: Action::SleepUntil(150), wake: None });
    assert_eq!(sys_sleep(usize::MAX - 1, 5).action, Action::SleepUntil(usize::MAX));
}

#[test]
fn refused_request_stays_counted() {
    let mut st = SyncState::new();
    sys_enable_deadlock_detect(&mut st, 1);
    let a = sys_mutex_create(&mut st, true) as usize;
    let b = sys_mutex_create(&mut st, true) as usize;
    sys_mutex_lock(&mut st, 0, a);
    sys_mutex_lock(&mut st, 1, b);
    sys_mutex_lock(&mut st, 0, b);
    assert_eq!(sys_mutex_lock(&mut st, 1, a), proceed(DEADLOCK));
    assert_eq!(st.mutex_ledger.need, vec![vec![0, 1], vec![1, 0]]);
    assert_eq!(st.mutex_ledger.available, vec![0, 0]);
    assert_eq!(st.mutex_ledger.allocation, vec![vec![1, 0], vec![0, 1]]);
    assert_eq!(st.mutex_list[a].as_ref().map(|m| match m {
        os8_sync::mutex::AnyMutex::Blocking(b) => b.inner.wait_queue.len(),
        os8_sync::mutex::AnyMutex::Spin(_) => 99,
    }), Some(0));
}

#[test]
fn hand_off_consumes_waiters_request() {
    let mut st = SyncState::new();
    let m = sys_mutex_create(&mut st, true) as usize;
    sys_mutex_lock(&mut st, 0, m);
    sys_mutex_lock(&mut st, 1, m);
    assert_eq!(st.mutex_ledger.need[1][m], 1);
    sys_mutex_unlock(&mut st, 0, m);
    assert_eq!(st.mutex_ledger.need[0][m], 0);
    assert_eq!(st.mutex_ledger.need[1][m], 0);
    assert_eq!(st.mutex_ledger.total[m], 1);

    let s = sys_semaphore_create(&mut st, 1) as usize;
    sys_semaphore_down(&mut st, 0, s);
    sys_semaphore_down(&mut st, 1, s);
    assert_eq!(st.semaphore_ledger.need[1][s], 1);
    sys_semaphore_up(&mut st, 0, s);
    assert_eq!(st.semaphore_ledger.need[1][s], 0);
    assert_eq!(st.semaphore_ledger.allocation[1][s], 1);
    assert_eq!(st.semaphore_ledger.total[s], 1);
}

#[test]
fn create_appends_a_fresh_column() {
    let mut st = SyncState::new();
    sys_mutex_create(&mut st, true);
    sys_mutex_lock(&mut st, 0, 0);
    sys_mutex_lock(&mut st, 1, 0);
    assert_eq!(sys_mutex_create(&mut st, false), 1);
    assert_eq!(st.mutex_ledger.available, vec![0, 1]);
    assert_eq!(st.mutex_ledger.need, vec![vec![0, 0], vec![1, 0]]);
    assert_eq!(st.mutex_ledger.allocation, vec![vec![1, 0], vec![0, 0]]);
    assert_eq!(st.mutex_ledger.total, vec![1, 1]);
}
