use kernel_core::banker::{deadlock_detected, ResourceManager, ResourceTable};
use kernel_core::sync::{Acquire, Condvar, MutexBlocking, MutexSpin, Semaphore};
use kernel_core::syscall::{
    sys_condvar_create, sys_condvar_signal, sys_condvar_wait, sys_enable_deadlock_detect,
    sys_gettid, sys_mutex_create, sys_mutex_lock, sys_mutex_unlock, sys_semaphore_create,
    sys_semaphore_down, sys_semaphore_up, sys_thread_create, sys_yield, DEADLOCK, RETRY,
};
use kernel_core::task::{Kernel, TaskStatus};

/// Runs the scheduler until `(pid, tid)` holds the hart.
fn switch_to(k: &mut Kernel, pid: usize, tid: usize) {
    for _ in 0..100 {
        if k.current == Some((pid, tid)) {
            return;
        }
        if k.current.is_some() {
            sys_yield(k);
        }
        k.run_next();
    }
    panic!("task never scheduled");
}

fn status(k: &Kernel, pid: usize, tid: usize) -> TaskStatus {
    k.task_status(pid, tid).unwrap()
}

fn boot_with_threads(n: usize) -> Kernel {
    let mut k = Kernel::new();
    k.run_next();
    for i in 0..n {
        assert_eq!(sys_thread_create(&mut k, 0x1000, i), (i + 1) as isize);
    }
    k
}

#[test]
fn deadlock_detected_on_crossed_requests() {
    let mut k = boot_with_threads(1);
    assert_eq!(sys_enable_deadlock_detect(&mut k, 1), 0);
    let m1 = sys_mutex_create(&mut k, true) as usize;
    let m2 = sys_mutex_create(&mut k, true) as usize;
    assert_eq!(sys_mutex_lock(&mut k, m1), 0);
    switch_to(&mut k, 0, 1);
    assert_eq!(sys_mutex_lock(&mut k, m2), 0);
    switch_to(&mut k, 0, 0);
    // T0 asks for M2: T1 could still finish, so T0 blocks.
    assert_eq!(sys_mutex_lock(&mut k, m2), 0);
    assert_eq!(k.current, None);
    assert_eq!(status(&k, 0, 0), TaskStatus::Blocked);
    switch_to(&mut k, 0, 1);
    // T1 asks for M1: nobody could finish, refused.
    assert_eq!(sys_mutex_lock(&mut k, m1), DEADLOCK);
    assert_eq!(k.current, Some((0, 1)));
    // Releasing the winner's mutex resolves the system.
    assert_eq!(sys_mutex_unlock(&mut k, m2), 0);
    assert_eq!(status(&k, 0, 0), TaskStatus::Ready);
}

#[test]
fn crossed_requests_block_without_detection() {
    let mut k = boot_with_threads(1);
    let m1 = sys_mutex_create(&mut k, true) as usize;
    let m2 = sys_mutex_create(&mut k, true) as usize;
    assert_eq!(sys_mutex_lock(&mut k, m1), 0);
    switch_to(&mut k, 0, 1);
    assert_eq!(sys_mutex_lock(&mut k, m2), 0);
    switch_to(&mut k, 0, 0);
    assert_eq!(sys_mutex_lock(&mut k, m2), 0);
    switch_to(&mut k, 0, 1);
    assert_eq!(sys_mutex_lock(&mut k, m1), 0);
    assert_eq!(status(&k, 0, 0), TaskStatus::Blocked);
    assert_eq!(status(&k, 0, 1), TaskStatus::Blocked);
    assert_eq!(k.run_next(), None);
}

#[test]
fn banker_refuses_exactly_one_request() {
    let mut k = boot_with_threads(1);
    sys_enable_deadlock_detect(&mut k, 1);
    let m1 = sys_mutex_create(&mut k, true) as usize;
    let m2 = sys_mutex_create(&mut k, true) as usize;
    sys_mutex_lock(&mut k, m1);
    switch_to(&mut k, 0, 1);
    sys_mutex_lock(&mut k, m2);
    switch_to(&mut k, 0, 0);
    let a = sys_mutex_lock(&mut k, m2);
    switch_to(&mut k, 0, 1);
    let b = sys_mutex_lock(&mut k, m1);
    let refused = [a, b].iter().filter(|r| **r == DEADLOCK).count();
    assert_eq!(refused, 1);
    assert_eq!(a, 0);
    assert_eq!(status(&k, 0, 0), TaskStatus::Blocked);
    sys_mutex_unlock(&mut k, m2);
    switch_to(&mut k, 0, 0);
    assert_eq!(sys_gettid(&k), 0);
}

#[test]
fn spin_mutex_counts_to_two_thousand() {
    let mut k = boot_with_threads(1);
    let m = sys_mutex_create(&mut k, false) as usize;
    let mut counter = 0u32;
    let mut left = [1000u32, 1000u32];
    while left[0] + left[1] > 0 {
        for tid in 0..2usize {
            if left[tid] == 0 {
                continue;
            }
            switch_to(&mut k, 0, tid);
            if sys_mutex_lock(&mut k, m) == 0 {
                counter += 1;
                left[tid] -= 1;
                assert_eq!(sys_mutex_unlock(&mut k, m), 0);
            }
        }
    }
    assert_eq!(counter, 2000);
}

#[test]
fn spin_mutex_taken_makes_caller_retry() {
    let mut k = boot_with_threads(1);
    let m = sys_mutex_create(&mut k, false) as usize;
    assert_eq!(sys_mutex_lock(&mut k, m), 0);
    switch_to(&mut k, 0, 1);
    assert_eq!(sys_mutex_lock(&mut k, m), RETRY);
    assert_eq!(k.current, None);
    assert_eq!(status(&k, 0, 1), TaskStatus::Ready);
}

#[test]
fn blocking_mutex_wakes_in_request_order() {
    let mut k = boot_with_threads(3);
    let m = sys_mutex_create(&mut k, true) as usize;
    assert_eq!(sys_mutex_lock(&mut k, m), 0);
    for tid in 1..4usize {
        switch_to(&mut k, 0, tid);
        assert_eq!(sys_mutex_lock(&mut k, m), 0);
        assert_eq!(status(&k, 0, tid), TaskStatus::Blocked);
    }
    switch_to(&mut k, 0, 0);
    let before = k.ready.len();
    for _ in 0..3 {
        assert_eq!(sys_mutex_unlock(&mut k, m), 0);
    }
    let woken: Vec<(usize, usize)> = k.ready[before..].to_vec();
    assert_eq!(woken, vec![(0, 1), (0, 2), (0, 3)]);
    assert_eq!(sys_mutex_unlock(&mut k, m), 0);
    assert_eq!(sys_mutex_unlock(&mut k, m), -1);
}

#[test]
fn semaphore_third_down_waits_for_an_up() {
    let mut k = boot_with_threads(3);
    let s = sys_semaphore_create(&mut k, 2) as usize;
    switch_to(&mut k, 0, 1);
    assert_eq!(sys_semaphore_down(&mut k, s), 0);
    assert_eq!(k.current, Some((0, 1)));
    switch_to(&mut k, 0, 2);
    assert_eq!(sys_semaphore_down(&mut k, s), 0);
    assert_eq!(k.current, Some((0, 2)));
    switch_to(&mut k, 0, 3);
    assert_eq!(sys_semaphore_down(&mut k, s), 0);
    assert_eq!(status(&k, 0, 3), TaskStatus::Blocked);
    switch_to(&mut k, 0, 1);
    assert_eq!(status(&k, 0, 3), TaskStatus::Blocked);
    assert_eq!(sys_semaphore_up(&mut k, s), 0);
    assert_eq!(status(&k, 0, 3), TaskStatus::Ready);
}

#[test]
fn sync_ids_are_checked() {
    let mut k = boot_with_threads(0);
    assert_eq!(sys_mutex_lock(&mut k, 0), -1);
    assert_eq!(sys_mutex_unlock(&mut k, 3), -1);
    assert_eq!(sys_semaphore_up(&mut k, 0), -1);
    assert_eq!(sys_semaphore_down(&mut k, 0), -1);
    assert_eq!(sys_condvar_signal(&mut k, 0), -1);
    assert_eq!(sys_enable_deadlock_detect(&mut k, 2), -1);
    assert_eq!(sys_mutex_create(&mut k, true), 0);
    assert_eq!(sys_mutex_create(&mut k, false), 1);
    assert_eq!(sys_semaphore_create(&mut k, 0), 0);
    assert_eq!(sys_condvar_create(&mut k), 0);
}

#[test]
fn condvar_wait_and_signal() {
    let mut k = boot_with_threads(1);
    let m = sys_mutex_create(&mut k, true) as usize;
    let c = sys_condvar_create(&mut k) as usize;
    switch_to(&mut k, 0, 1);
    assert_eq!(sys_mutex_lock(&mut k, m), 0);
    assert_eq!(sys_condvar_wait(&mut k, c, m), 0);
    assert_eq!(status(&k, 0, 1), TaskStatus::Blocked);
    switch_to(&mut k, 0, 0);
    assert_eq!(sys_condvar_signal(&mut k, c), 0);
    // The mutex was free, so the waiter holds it again and is ready.
    assert_eq!(status(&k, 0, 1), TaskStatus::Ready);
    switch_to(&mut k, 0, 1);
    assert_eq!(sys_mutex_unlock(&mut k, m), 0);
}

#[test]
fn condvar_wait_needs_blocking_mutex() {
    let mut k = boot_with_threads(0);
    let m = sys_mutex_create(&mut k, false) as usize;
    let c = sys_condvar_create(&mut k) as usize;
    sys_mutex_lock(&mut k, m);
    assert_eq!(sys_condvar_wait(&mut k, c, m), -1);
}

#[test]
fn primitive_state_machines() {
    let mut s = MutexSpin::new();
    assert_eq!(s.lock(), Acquire::Acquired);
    assert_eq!(s.lock(), Acquire::Retry);
    s.unlock();
    assert!(!s.locked);
    let mut b = MutexBlocking::new();
    assert_eq!(b.lock(7), Acquire::Acquired);
    assert_eq!(b.lock(8), Acquire::Blocked);
    assert_eq!(b.unlock(), Some(8));
    assert!(b.locked);
    assert_eq!(b.unlock(), None);
    assert!(!b.locked);
    let mut sem = Semaphore::new(1);
    assert_eq!(sem.down(1), Acquire::Acquired);
    assert_eq!(sem.down(2), Acquire::Blocked);
    assert_eq!(sem.count, -1);
    assert_eq!(sem.up(), Some(2));
    assert_eq!(sem.up(), None);
    assert_eq!(sem.count, 1);
    let mut cv = Condvar::new();
    assert_eq!(cv.signal(), None);
    cv.wait(4, 0);
    cv.wait(5, 0);
    assert_eq!(cv.signal(), Some((4, 0)));
}

#[test]
fn banker_safe_and_unsafe_states() {
    // Two threads, two resources, nothing free.
    let available = vec![0usize, 0];
    let allocation = vec![vec![1usize, 0], vec![0usize, 1]];
    let safe_need = vec![vec![0usize, 1], vec![0usize, 0]];
    assert!(!deadlock_detected(&available, &allocation, &safe_need));
    let unsafe_need = vec![vec![0usize, 1], vec![1usize, 0]];
    assert!(deadlock_detected(&available, &allocation, &unsafe_need));
    // No threads: nothing can deadlock.
    assert!(!deadlock_detected(&vec![1usize], &Vec::new(), &Vec::new()));
}

#[test]
fn resource_table_conserves_units() {
    let mut t = ResourceTable::new();
    let r = t.add_resource(2);
    t.ensure_thread(1);
    t.grant(0, r);
    t.grant(1, r);
    assert_eq!(t.available[r], 0);
    assert_eq!(t.available[r] + t.allocation[0][r] + t.allocation[1][r], t.capacity[r]);
    t.request(0, r);
    // Both threads would then wait for a unit that only the other holds.
    assert!(t.would_deadlock(1, r));
    t.release(1, r);
    assert_eq!(t.available[r] + t.allocation[0][r] + t.allocation[1][r], 2);
    assert_eq!(t.allocation[1][r], 0);
}

#[test]
fn resource_manager_tables() {
    let mut rm = ResourceManager::new(2, 3);
    rm.update_allocation(1, vec![1, 0, 2]);
    rm.update_max(0, vec![3, 3, 3]);
    rm.set_available(vec![1, 1, 1]);
}

#[test]
fn lock_and_unlock_move_units() {
    let mut k = boot_with_threads(1);
    let m = sys_mutex_create(&mut k, true) as usize;
    assert_eq!(sys_mutex_lock(&mut k, m), 0);
    {
        let st = &k.procs[0].as_ref().unwrap().sync.mutex_res;
        assert_eq!(st.available[m], 0);
        assert_eq!(st.allocation[0][m], 1);
    }
    switch_to(&mut k, 0, 1);
    assert_eq!(sys_mutex_lock(&mut k, m), 0);
    assert_eq!(k.procs[0].as_ref().unwrap().sync.mutex_res.need[1][m], 1);
    switch_to(&mut k, 0, 0);
    assert_eq!(sys_mutex_unlock(&mut k, m), 0);
    let st = &k.procs[0].as_ref().unwrap().sync.mutex_res;
    assert_eq!(st.allocation[0][m], 0);
    assert_eq!(st.allocation[1][m], 1);
    assert_eq!(st.need[1][m], 0);
    assert_eq!(st.available[m], 0);
    assert_eq!(k.task_status(0, 1), Some(TaskStatus::Ready));
}
