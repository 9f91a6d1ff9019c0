use kernel_core::process::copy_trap_cx;
use kernel_core::file::FdTable;
use kernel_core::fs::FileSystem;
use kernel_core::pipe::PipeRingBuffer;
use kernel_core::syscall::{
    sys_exec, sys_exit, sys_fork, sys_getpid, sys_set_priority, sys_spawn, sys_thread_create,
    sys_waitpid, sys_waittid, sys_yield,
};
use kernel_core::timer::{sys_get_time, sys_task_info};
use kernel_core::task::{Kernel, TaskStatus, INIT_PID};
use kernel_core::timer::sys_sleep;
use kernel_core::trap::TrapContext;
use kernel_core::config::BIG_STRIDE;

fn switch_to(k: &mut Kernel, pid: usize, tid: usize) {
    for _ in 0..100 {
        if k.current == Some((pid, tid)) {
            return;
        }
        if k.current.is_some() {
            sys_yield(k);
        }
        k.run_next();
    }
    panic!("task never scheduled");
}

#[test]
fn fork_exit_wait_reports_exit_code() {
    let mut k = Kernel::new();
    k.run_next();
    let child = sys_fork(&mut k);
    assert!(child > 0);
    assert_eq!(sys_waitpid(&mut k, child), (-2, None));
    switch_to(&mut k, child as usize, 0);
    assert_eq!(sys_getpid(&k), child);
    sys_exit(&mut k, 42);
    switch_to(&mut k, INIT_PID, 0);
    assert_eq!(sys_waitpid(&mut k, -1), (child, Some(42)));
    assert_eq!(sys_waitpid(&mut k, -1), (-1, None));
    assert!(k.procs[child as usize].is_none());
}

#[test]
fn waitpid_without_matching_child() {
    let mut k = Kernel::new();
    k.run_next();
    assert_eq!(sys_waitpid(&mut k, -1), (-1, None));
    let c = sys_fork(&mut k);
    assert_eq!(sys_waitpid(&mut k, c + 5), (-1, None));
}

#[test]
fn parent_and_children_agree_after_fork_and_exit() {
    let mut k = Kernel::new();
    k.run_next();
    let a = sys_fork(&mut k) as usize;
    switch_to(&mut k, a, 0);
    let b = sys_fork(&mut k) as usize;
    let pa = k.procs[a].as_ref().unwrap();
    assert_eq!(pa.children, vec![b]);
    assert_eq!(k.procs[b].as_ref().unwrap().parent, Some(a));
    sys_exit(&mut k, 7);
    // b goes to init.
    assert_eq!(k.procs[b].as_ref().unwrap().parent, Some(INIT_PID));
    assert_eq!(k.procs[INIT_PID].as_ref().unwrap().children, vec![a, b]);
    assert!(k.procs[a].as_ref().unwrap().children.is_empty());
    assert!(k.procs[a].as_ref().unwrap().is_zombie);
}

#[test]
fn fork_child_returns_zero_in_a0() {
    let mut k = Kernel::new();
    k.run_next();
    let c = sys_fork(&mut k) as usize;
    let t = k.procs[c].as_ref().unwrap().tasks[0].as_ref().unwrap();
    assert_eq!(t.trap_cx.x[10], 0);
    assert_eq!(t.status, TaskStatus::Ready);
}

#[test]
fn freed_pid_is_reused() {
    let mut k = Kernel::new();
    k.run_next();
    let c = sys_fork(&mut k);
    switch_to(&mut k, c as usize, 0);
    sys_exit(&mut k, 1);
    switch_to(&mut k, 0, 0);
    assert_eq!(sys_waitpid(&mut k, c), (c, Some(1)));
    assert_eq!(sys_fork(&mut k), c);
}

#[test]
fn stride_scheduler_prefers_smallest_stride() {
    let mut k = Kernel::new();
    assert_eq!(k.run_next(), Some((0, 0)));
    assert_eq!(k.procs[0].as_ref().unwrap().tasks[0].as_ref().unwrap().stride, BIG_STRIDE / 16);
    assert_eq!(sys_thread_create(&mut k, 0x2000, 9), 1);
    sys_yield(&mut k);
    // The new thread has stride 0 and goes first.
    assert_eq!(k.run_next(), Some((0, 1)));
    assert_eq!(k.task_status(0, 1), Some(TaskStatus::Running));
    sys_yield(&mut k);
    // Equal strides: the earlier in the queue wins.
    assert_eq!(k.run_next(), Some((0, 0)));
    sys_yield(&mut k);
    assert_eq!(k.run_next(), Some((0, 1)));
}

#[test]
fn running_task_is_never_zombie_or_blocked() {
    let mut k = Kernel::new();
    k.run_next();
    sys_thread_create(&mut k, 0x2000, 0);
    sys_thread_create(&mut k, 0x2000, 0);
    for _ in 0..20 {
        if let Some((p, t)) = k.current {
            let st = k.task_status(p, t).unwrap();
            assert_eq!(st, TaskStatus::Running);
            sys_yield(&mut k);
        }
        k.run_next();
    }
}

#[test]
fn priority_must_be_at_least_two() {
    let mut k = Kernel::new();
    k.run_next();
    assert_eq!(sys_set_priority(&mut k, 1), -1);
    assert_eq!(sys_set_priority(&mut k, 2), 2);
    assert_eq!(k.procs[0].as_ref().unwrap().tasks[0].as_ref().unwrap().priority, 2);
}

#[test]
fn thread_create_sets_entry_and_argument() {
    let mut k = Kernel::new();
    k.run_next();
    assert_eq!(sys_thread_create(&mut k, 0x1234, 77), 1);
    let t = k.procs[0].as_ref().unwrap().tasks[1].as_ref().unwrap();
    assert_eq!(t.trap_cx.sepc, 0x1234);
    assert_eq!(t.trap_cx.x[10], 77);
    assert_eq!(t.trap_cx.x[2] as u64, 0xffff_ffff_ffff_e000u64 - 4096 - 12288);
}

#[test]
fn waittid_reaps_exited_thread() {
    let mut k = Kernel::new();
    k.run_next();
    sys_thread_create(&mut k, 0x1000, 0);
    assert_eq!(sys_waittid(&mut k, 0), -1);
    assert_eq!(sys_waittid(&mut k, 5), -1);
    assert_eq!(sys_waittid(&mut k, 1), -2);
    switch_to(&mut k, 0, 1);
    sys_exit(&mut k, 9);
    switch_to(&mut k, 0, 0);
    assert_eq!(sys_waittid(&mut k, 1), 9);
    assert_eq!(sys_waittid(&mut k, 1), -1);
}

#[test]
fn sleeping_task_wakes_at_expiry() {
    let mut k = Kernel::new();
    k.run_next();
    assert_eq!(sys_sleep(&mut k, 10, 100), 0);
    assert_eq!(k.task_status(0, 0), Some(TaskStatus::Blocked));
    k.check_timer(105);
    assert_eq!(k.task_status(0, 0), Some(TaskStatus::Blocked));
    k.check_timer(110);
    assert_eq!(k.task_status(0, 0), Some(TaskStatus::Ready));
    assert!(k.timers.is_empty());
}

#[test]
fn trap_context_initial_values() {
    let cx = TrapContext::app_init_context(0x10, 0x20, 1, 2, 3);
    assert_eq!(cx.x.len(), 32);
    assert_eq!(cx.x[2], 0x20);
    assert_eq!(cx.sepc, 0x10);
    let copy = copy_trap_cx(&cx);
    assert_eq!(copy.x, cx.x);
    assert_eq!(copy.kernel_sp, 2);
}

fn fs_with(name: &str) -> FileSystem {
    let mut fs = FileSystem::new(1);
    fs.create(&name.as_bytes().to_vec()).unwrap();
    fs
}

#[test]
fn exec_resets_user_state() {
    let mut k = Kernel::new();
    k.run_next();
    let fs = fs_with("prog");
    assert_eq!(sys_exec(&mut k, &fs, &b"nope".to_vec(), 0x8000, 0x7000), -1);
    assert_eq!(sys_exec(&mut k, &fs, &b"prog".to_vec(), 0x8000, 0x7000), 0);
    let t = k.procs[0].as_ref().unwrap().tasks[0].as_ref().unwrap();
    assert_eq!(t.trap_cx.sepc, 0x8000);
    assert_eq!(t.trap_cx.x[2], 0x7000);
    assert_eq!(t.trap_cx.x[10], 0);
}

#[test]
fn fork_then_exec_then_exit_seen_by_parent() {
    let mut k = Kernel::new();
    k.run_next();
    let c = sys_fork(&mut k);
    switch_to(&mut k, c as usize, 0);
    let fs = fs_with("child");
    assert_eq!(sys_exec(&mut k, &fs, &b"child".to_vec(), 0x4000, 0x3000), 0);
    sys_exit(&mut k, 5);
    switch_to(&mut k, 0, 0);
    assert_eq!(sys_waitpid(&mut k, c), (c, Some(5)));
}

#[test]
fn spawn_starts_a_ready_child() {
    let mut k = Kernel::new();
    k.run_next();
    let fs = fs_with("app");
    let fds = FdTable::new();
    let mut pipes: Vec<PipeRingBuffer> = Vec::new();
    let (r, t) = sys_spawn(&mut k, &fs, &fds, &mut pipes, &b"none".to_vec(), 0x1000, 0x2000);
    assert_eq!(r, -1);
    assert!(t.is_none());
    let (c, table) = sys_spawn(&mut k, &fs, &fds, &mut pipes, &b"app".to_vec(), 0x1000, 0x2000);
    assert_eq!(c, 1);
    assert_eq!(table.unwrap().entries.len(), 2);
    let child = k.procs[1].as_ref().unwrap();
    assert_eq!(child.parent, Some(0));
    let t = child.tasks[0].as_ref().unwrap();
    assert_eq!(t.status, TaskStatus::Ready);
    assert_eq!(t.trap_cx.sepc, 0x1000);
    assert_eq!(t.trap_cx.x[2], 0x2000);
    assert_eq!(k.ready, vec![(1, 0)]);
    assert_eq!(k.procs[0].as_ref().unwrap().children, vec![1]);
}

#[test]
fn task_info_counts_calls() {
    let mut k = Kernel::new();
    k.run_next();
    k.record_syscall(64);
    k.record_syscall(64);
    k.record_syscall(93);
    let info = sys_task_info(&k, 1234);
    assert_eq!(info.status, TaskStatus::Running);
    assert_eq!(info.syscall_times[64], 2);
    assert_eq!(info.syscall_times[93], 1);
    assert_eq!(info.syscall_times[0], 0);
    assert_eq!(info.time, 1234);
    let tv = sys_get_time(2_500_000);
    assert_eq!((tv.sec, tv.usec), (2, 500_000));
}
