//! System calls of the running task, as transitions of the kernel state.
//! Pointer arguments are resolved by the caller; results that the kernel
//! writes to user memory are returned instead.
use crate::config::{PAGE_SIZE, TRAP_CONTEXT_BASE};
use crate::file::{write_ends, FdTable};
use crate::fs::{lookup, FileSystem};
use crate::pipe::PipeRingBuffer;
use crate::process::wait_match;
use crate::banker::{held_by, need_of, request_unsafe};
use crate::sync::{Acquire, Condvar, MutexBlocking, MutexKind, MutexSpin, Semaphore, SyncState};
use crate::task::{Kernel, TaskControlBlock, TaskStatus, INIT_PID};
use crate::trap::TrapContext;
use vstd::prelude::*;

verus! {

/// Result of a lock or down that the banker's test refused.
pub const DEADLOCK: isize = -0xDEAD;

/// Result of a lock on a taken spin mutex: the caller yielded and retries.
pub const RETRY: isize = -2;

/// Bytes of a thread's user stack.
pub const USER_STACK_SIZE: u64 = 8192;

/// Top of the user stack of thread `tid`: stacks go down from below the
/// trap-context pages, one guard page between each two.
pub open spec fn ustack_top_spec(tid: int) -> int {
    TRAP_CONTEXT_BASE - PAGE_SIZE - tid * (USER_STACK_SIZE + PAGE_SIZE)
}

pub fn ustack_top(tid: usize) -> (r: u64)
    requires
        tid < 0x1000_0000,
    ensures
        r == ustack_top_spec(tid as int),
{
    assert((tid as int) * 12288 <= 0x1000_0000 * 12288) by (nonlinear_arith)
        requires
            tid < 0x1000_0000,
    ;
    TRAP_CONTEXT_BASE - PAGE_SIZE - (tid as u64) * (USER_STACK_SIZE + PAGE_SIZE)
}

pub open spec fn cur(k: &Kernel) -> (usize, usize) {
    k.current.unwrap()
}

pub open spec fn sync_of(k: &Kernel, pid: int) -> SyncState {
    k.proc_at(pid).unwrap().sync
}

pub fn sys_getpid(k: &Kernel) -> (r: isize)
    requires
        k.wf(),
        k.current.is_some(),
    ensures
        r == cur(k).0,
{
    let (p, _t) = k.current.unwrap();
    assert(k.has_task(p as int, _t as int));
    p as isize
}

pub fn sys_gettid(k: &Kernel) -> (r: isize)
    requires
        k.wf(),
        k.current.is_some(),
    ensures
        r == cur(k).1,
{
    let (p, t) = k.current.unwrap();
    assert(k.has_task(p as int, t as int));
    assert(k.has_proc(p as int));
    t as isize
}

/// The running task gives up the hart and goes to the back of the ready queue.
pub fn sys_yield(k: &mut Kernel) -> (r: isize)
    requires
        old(k).wf(),
        old(k).current.is_some(),
    ensures
        final(k).wf(),
        r == 0,
        final(k).current.is_none(),
        final(k).ready@ == old(k).ready@.push(cur(old(k))),
        final(k).status_of(cur(old(k)).0 as int, cur(old(k)).1 as int) == TaskStatus::Ready,
{
    k.suspend_current();
    0
}

/// Forks the running process; returns the child's pid (the child's own
/// trap context returns 0).
pub fn sys_fork(k: &mut Kernel) -> (r: isize)
    requires
        old(k).wf(),
        old(k).current.is_some(),
        old(k).procs@.len() + 1 < isize::MAX,
    ensures
        final(k).wf(),
        r >= 0,
        !old(k).has_proc(r as int),
        final(k).has_parent(r as usize, cur(old(k)).0),
        final(k).children_of(cur(old(k)).0 as int) == old(k).children_of(cur(old(k)).0 as int).push(r as usize),
        final(k).has_task(r as int, 0),
        final(k).status_of(r as int, 0) == TaskStatus::Ready,
        final(k).children_of(r as int).len() == 0,
        ({
            let cx = old(k).task_at(cur(old(k)).0 as int, cur(old(k)).1 as int).unwrap().trap_cx;
            &&& final(k).task_at(r as int, 0).unwrap().trap_cx.x@ == if cx.x@.len() > 10 { cx.x@.update(10, 0) } else { cx.x@ }
            &&& forall|q: int| q != r && q != cur(old(k)).0 ==> #[trigger] final(k).proc_at(q) == old(k).proc_at(q)
            &&& final(k).task_at(r as int, 0).unwrap().trap_cx.sepc == cx.sepc
        }),
        final(k).ready@ == old(k).ready@.push((r as usize, 0usize)),
        final(k).current == old(k).current,
{
    let c = k.fork();
    assert(k.has_proc(c as int));
    c as isize
}

/// The running task exits with `exit_code` (its process too, when it is the
/// main thread); see `Kernel::exit_current`.
pub fn sys_exit(k: &mut Kernel, exit_code: i32)
    requires
        old(k).wf(),
        old(k).current.is_some(),
        cur(old(k)).1 == 0 ==> cur(old(k)).0 != INIT_PID,
    ensures
        final(k).wf(),
        final(k).current.is_none(),
        final(k).status_of(cur(old(k)).0 as int, cur(old(k)).1 as int) == TaskStatus::Zombie,
        final(k).task_at(cur(old(k)).0 as int, cur(old(k)).1 as int).unwrap().exit_code == Some(exit_code),
        cur(old(k)).1 == 0 ==> final(k).is_zombie_proc(cur(old(k)).0 as int)
            && final(k).proc_at(cur(old(k)).0 as int).unwrap().exit_code == exit_code,
{
    k.exit_current(exit_code);
}

/// Waits for a child; see `Kernel::waitpid`. The exit code comes back with
/// the pid instead of through a user pointer.
pub fn sys_waitpid(k: &mut Kernel, pid: isize) -> (r: (isize, Option<i32>))
    requires
        old(k).wf(),
        old(k).current.is_some(),
    ensures
        final(k).wf(),
        ({
            let kids = old(k).children_of(cur(old(k)).0 as int);
            &&& r.0 == -1 <==> !exists|j: int| 0 <= j < kids.len() && wait_match(pid, #[trigger] kids[j])
            &&& r.0 == -1 || r.0 == -2 || r.0 >= 0
            &&& r.0 < 0 ==> r.1.is_none() && final(k).procs == old(k).procs
            &&& final(k).current == old(k).current && final(k).ready == old(k).ready
            &&& r.0 >= 0 ==> exists|idx: int|
                old(k).first_zombie_match(cur(old(k)).0 as int, pid, idx) && r.0 == kids[idx] as int
                    && r.1 == Some(old(k).proc_at(kids[idx] as int).unwrap().exit_code)
                    && !final(k).has_proc(kids[idx] as int)
                    && final(k).children_of(cur(old(k)).0 as int) == kids.remove(idx)
            &&& r.0 == -2 <==> (exists|j: int| 0 <= j < kids.len() && wait_match(pid, #[trigger] kids[j]))
                && !exists|j: int| 0 <= j < kids.len() && wait_match(pid, #[trigger] kids[j])
                    && old(k).is_zombie_proc(kids[j] as int)
        }),
{
    k.waitpid(pid)
}

/// Starts program `path` in the running task: its user state becomes the
/// first trap context of a program entered at `entry` with stack
/// `user_sp` (the caller read both from the image); pid, parent, children,
/// threads and descriptors stay. -1, with nothing changed, when no file is
/// named `path`.
pub fn sys_exec(k: &mut Kernel, fs: &FileSystem, path: &Vec<u8>, entry: usize, user_sp: usize) -> (r: isize)
    requires
        old(k).wf(),
        old(k).current.is_some(),
    ensures
        final(k).wf(),
        r == -1 <==> lookup(fs.root@, path@).is_none(),
        r == -1 ==> final(k).procs == old(k).procs,
        r == 0 || r == -1,
        final(k).current == old(k).current,
        final(k).ready == old(k).ready,
        old(k).same_shape(final(k)),
        forall|q: int| #[trigger] final(k).has_proc(q) ==> final(k).proc_at(q).unwrap().sync == old(k).proc_at(q).unwrap().sync,
        r == 0 ==> final(k).task_at(cur(old(k)).0 as int, cur(old(k)).1 as int).unwrap().trap_cx.sepc == entry,
        r == 0 ==> final(k).task_at(cur(old(k)).0 as int, cur(old(k)).1 as int).unwrap().trap_cx.x@ == Seq::new(32, |i: int| if i == 2 { user_sp } else { 0usize }),
        r == 0 ==> forall|q: int, u: int| !(q == cur(old(k)).0 && u == cur(old(k)).1) ==> #[trigger] final(k).task_at(q, u) == old(k).task_at(q, u),
{
    if fs.find(path).is_none() {
        proof { old(k).lemma_same_procs_shape(k); }
        return -1;
    }
    let (p, t) = k.current.unwrap();
    assert(k.has_task(p as int, t as int));
    let cx = TrapContext::app_init_context(entry, user_sp, 0, 0, 0);
    k.set_trap_cx(p, t, cx);
    0
}

/// Starts program `path` in a new child of the running process: a fresh
/// pid, one ready thread entered at `entry` with stack `user_sp`, and a copy
/// `fds` of the caller's descriptors (each pipe write end in it one more
/// open writer). Returns the child's pid and descriptor table, or -1 when
/// no file is named `path`.
pub fn sys_spawn(
    k: &mut Kernel,
    fs: &FileSystem,
    fds: &FdTable,
    pipes: &mut Vec<PipeRingBuffer>,
    path: &Vec<u8>,
    entry: usize,
    user_sp: usize,
) -> (r: (isize, Option<FdTable>))
    requires
        old(k).wf(),
        old(k).current.is_some(),
        old(k).procs@.len() + 1 < isize::MAX,
        forall|i: int| 0 <= i < old(pipes)@.len() ==> (#[trigger] old(pipes)@[i]).wf(),
        forall|i: int| 0 <= i < old(pipes)@.len() ==> (#[trigger] old(pipes)@[i]).open_writers()
            + write_ends(fds.entries@, i) <= usize::MAX,
    ensures
        final(k).wf(),
        r.0 == -1 <==> lookup(fs.root@, path@).is_none(),
        lookup(fs.root@, path@).is_some() ==> r.0 >= 0,
        r.0 == -1 ==> final(k).procs == old(k).procs && final(k).ready == old(k).ready
            && r.1.is_none() && final(pipes)@ == old(pipes)@,
        final(k).current == old(k).current,
        final(pipes)@.len() == old(pipes)@.len(),
        r.0 >= 0 ==> {
            let p = cur(old(k)).0;
            &&& !old(k).has_proc(r.0 as int)
            &&& final(k).has_parent(r.0 as usize, p)
            &&& final(k).children_of(p as int) == old(k).children_of(p as int).push(r.0 as usize)
            &&& final(k).proc_at(p as int).unwrap().tasks == old(k).proc_at(p as int).unwrap().tasks
            &&& final(k).proc_at(p as int).unwrap().sync == old(k).proc_at(p as int).unwrap().sync
            &&& forall|q: int| q != r.0 && q != p ==> #[trigger] final(k).proc_at(q) == old(k).proc_at(q)
            &&& final(k).children_of(r.0 as int).len() == 0
            &&& final(k).has_task(r.0 as int, 0)
            &&& final(k).status_of(r.0 as int, 0) == TaskStatus::Ready
            &&& final(k).task_at(r.0 as int, 0).unwrap().trap_cx.sepc == entry
            &&& final(k).task_at(r.0 as int, 0).unwrap().trap_cx.x@ == Seq::new(32, |i: int| if i == 2 { user_sp } else { 0usize })
            &&& final(k).ready@ == old(k).ready@.push((r.0 as usize, 0usize))
            &&& r.1 matches Some(t) && t.entries@ == fds.entries@
            &&& forall|i: int| 0 <= i < final(pipes)@.len() ==> {
                &&& (#[trigger] final(pipes)@[i]).wf()
                &&& final(pipes)@[i].contents() == old(pipes)@[i].contents()
                &&& old(pipes)@[i].writer_attached() ==> final(pipes)@[i].open_writers() == old(pipes)@[i].open_writers()
                    + write_ends(fds.entries@, i)
            }
        },
{
    if fs.find(path).is_none() {
        return (-1, None);
    }
    let ghost k0 = *k;
    let c = k.fork();
    let ghost k1 = *k;
    let cx = TrapContext::app_init_context(entry, user_sp, 0, 0, 0);
    k.set_trap_cx(c, 0, cx);
    let table = fds.duplicate(pipes);
    proof {
        let p = cur(old(k)).0;
        assert(k1.has_proc(c as int));
        assert(k.has_proc(c as int));
        assert(k1.has_proc(p as int));
        assert(k.has_proc(p as int));
        assert(k.proc_at(p as int) == k1.proc_at(p as int));
        assert(k.proc_at(c as int).unwrap().parent == k1.proc_at(c as int).unwrap().parent);
        assert(k.children_of(c as int) == k1.children_of(c as int));
        assert forall|q: int| q != c && q != p implies #[trigger] k.proc_at(q) == old(k).proc_at(q) by {
            assert(k.proc_at(q) == k1.proc_at(q));
        }
    }
    (c as isize, Some(table))
}

/// Sets the running task's priority; it must be at least 2.
pub fn sys_set_priority(k: &mut Kernel, prio: isize) -> (r: isize)
    requires
        old(k).wf(),
        old(k).current.is_some(),
    ensures
        final(k).wf(),
        prio <= 1 ==> r == -1 && final(k).procs == old(k).procs,
        prio >= 2 ==> r == prio && final(k).task_at(cur(old(k)).0 as int, cur(old(k)).1 as int).unwrap().priority == prio as u64,
{
    if prio <= 1 {
        return -1;
    }
    let (p, t) = k.current.unwrap();
    assert(k.has_task(p as int, t as int));
    k.set_priority(p, t, prio as u64);
    prio
}

/// First free thread slot of process `pid`: an empty slot, else the end.
fn free_tid(k: &Kernel, pid: usize) -> (r: usize)
    requires
        k.wf(),
        k.has_proc(pid as int),
    ensures
        !k.has_task(pid as int, r as int),
        r <= k.proc_at(pid as int).unwrap().tasks@.len(),
        forall|t: int| 0 <= t < r ==> #[trigger] k.has_task(pid as int, t),
{
    let tasks = &k.procs[pid].as_ref().unwrap().tasks;
    let mut i: usize = 0;
    while i < tasks.len()
        invariant
            i <= tasks@.len(),
            tasks@ == k.proc_at(pid as int).unwrap().tasks@,
            k.has_proc(pid as int),
            forall|t: int| 0 <= t < i ==> #[trigger] k.has_task(pid as int, t),
        decreases tasks@.len() - i,
    {
        if tasks[i].is_none() {
            return i;
        }
        i = i + 1;
    }
    i
}

/// Creates a thread in the running process that starts at `entry` with
/// `arg` in a0 and its own user stack; it is queued, and its tid returned.
pub fn sys_thread_create(k: &mut Kernel, entry: usize, arg: usize) -> (r: isize)
    requires
        old(k).wf(),
        old(k).current.is_some(),
    ensures
        final(k).wf(),
        final(k).current == old(k).current,
        r == -1 || ({
            let p = cur(old(k)).0 as int;
            &&& r >= 0
            &&& !old(k).has_task(p, r as int)
            &&& final(k).has_task(p, r as int)
            &&& final(k).status_of(p, r as int) == TaskStatus::Ready
            &&& final(k).task_at(p, r as int).unwrap().trap_cx.sepc == entry
            &&& final(k).task_at(p, r as int).unwrap().trap_cx.x@[10] == arg
            &&& final(k).task_at(p, r as int).unwrap().trap_cx.x@[2] == ustack_top_spec(r as int) as usize
            &&& final(k).ready@ == old(k).ready@.push((p as usize, r as usize))
        }),
        r == -1 ==> final(k).procs == old(k).procs,
        old(k).proc_at(cur(old(k)).0 as int).unwrap().tasks@.len() < 0x1000_0000 ==> r >= 0,
        forall|q: int| q != cur(old(k)).0 ==> #[trigger] final(k).proc_at(q) == old(k).proc_at(q),
        r >= 0 ==> forall|q: int, u: int| !(q == cur(old(k)).0 && u == r) ==> #[trigger] final(k).task_at(q, u) == old(k).task_at(q, u),
        ({
            let p = cur(old(k)).0 as int;
            &&& final(k).proc_at(p).unwrap().sync == old(k).proc_at(p).unwrap().sync
            &&& final(k).proc_at(p).unwrap().parent == old(k).proc_at(p).unwrap().parent
            &&& final(k).proc_at(p).unwrap().children == old(k).proc_at(p).unwrap().children
            &&& final(k).proc_at(p).unwrap().exit_code == old(k).proc_at(p).unwrap().exit_code
        }),
{
    let (p, t) = k.current.unwrap();
    assert(k.has_task(p as int, t as int));
    let tid = free_tid(k, p);
    if tid >= 0x1000_0000 {
        return -1;
    }
    let mut cx = TrapContext::app_init_context(entry, ustack_top(tid) as usize, 0, 0, 0);
    cx.x.set(10, arg);
    let mut tcb = TaskControlBlock::new(tid, cx);
    tcb.status = TaskStatus::UnInit;
    let ghost k0 = *k;
    k.insert_task(p, tcb);
    let ghost k1 = *k;
    proof {
        assert(k0.has_proc(p as int));
        assert(k.has_proc(p as int));
        assert(!k.proc_at(p as int).unwrap().is_zombie) by {
            assert(old(k).has_proc(p as int));
        }
    }
    k.add_task(p, tid);
    proof {
        assert(k.has_proc(p as int));
        assert(k1.has_proc(p as int));
        assert(k.proc_at(p as int).unwrap().sync == k1.proc_at(p as int).unwrap().sync);
    }
    tid as isize
}

/// Reaps thread `tid` of the running process: -1 when it is the caller or
/// does not exist, -2 while it has not exited, else its exit code (the
/// thread leaves the process and any queue entry of it is dropped).
pub fn sys_waittid(k: &mut Kernel, tid: usize) -> (r: i32)
    requires
        old(k).wf(),
        old(k).current.is_some(),
    ensures
        final(k).wf(),
        final(k).current == old(k).current,
        ({
            let p = cur(old(k)).0 as int;
            &&& (tid == cur(old(k)).1 || !old(k).has_task(p, tid as int)) ==> r == -1 && final(k).procs == old(k).procs
                && final(k).ready == old(k).ready
            &&& tid != cur(old(k)).1 && old(k).has_task(p, tid as int) ==> {
                let w = old(k).task_at(p, tid as int).unwrap();
                if w.exit_code.is_some() {
                    &&& r == w.exit_code.unwrap()
                    &&& !final(k).has_task(p, tid as int)
                    &&& forall|q: int, u: int| !(q == p && u == tid) ==> #[trigger] final(k).task_at(q, u) == old(k).task_at(q, u)
                    &&& !final(k).ready@.contains((p as usize, tid))
                    &&& forall|e: (usize, usize)| e != (p as usize, tid) && old(k).ready@.contains(e) ==> #[trigger] final(k).ready@.contains(e)
                } else {
                    r == -2 && final(k).procs == old(k).procs && final(k).ready == old(k).ready
                }
            }
        }),
{
    let (p, me) = k.current.unwrap();
    assert(k.has_task(p as int, me as int));
    if tid == me {
        return -1;
    }
    match k.task_status(p, tid) {
        None => -1,
        Some(_) => {
            let code = k.procs[p].as_ref().unwrap().tasks[tid].as_ref().unwrap().exit_code;
            match code {
                Some(c) => {
                    let ghost k0 = *k;
                    k.dequeue_proc(p, Some(tid));
                    let ghost k1 = *k;
                    proof {
                        assert forall|q: int, u: int| #[trigger] k1.task_at(q, u) == k0.task_at(q, u) by {}
                        if k1.ready@.contains((p, tid)) {
                            let j = k1.ready@.index_of((p, tid));
                            assert(crate::process::dropped(k1.ready@[j], p, Some(tid)));
                        }
                    }
                    k.remove_task(p, tid);
                    c
                },
                None => -2,
            }
        },
    }
}


/// Takes the running process's synchronization state out of the kernel
/// (leaving an empty one), with its pid and the caller's tid.
fn take_sync(k: &mut Kernel) -> (r: (usize, usize, SyncState))
    requires
        old(k).wf(),
        old(k).current.is_some(),
    ensures
        final(k).wf(),
        old(k).same_shape(final(k)),
        final(k).ready == old(k).ready,
        final(k).current == old(k).current,
        (r.0, r.1) == cur(old(k)),
        r.2 == sync_of(old(k), r.0 as int),
        r.2.wf(),
        forall|q: int, t: int| #[trigger] final(k).task_at(q, t) == old(k).task_at(q, t),
        forall|q: int| q != r.0 ==> #[trigger] final(k).proc_at(q) == old(k).proc_at(q),
{
    let (p, t) = k.current.unwrap();
    assert(k.has_task(p as int, t as int));
    let mut st = SyncState::new();
    k.swap_sync(p, &mut st);
    (p, t, st)
}

/// Puts a synchronization state back into process `p`.
fn put_sync(k: &mut Kernel, p: usize, st: SyncState)
    requires
        old(k).wf(),
        old(k).has_proc(p as int),
        st.wf(),
    ensures
        final(k).wf(),
        old(k).same_shape(final(k)),
        final(k).ready == old(k).ready,
        final(k).current == old(k).current,
        sync_of(final(k), p as int) == st,
        forall|q: int, t: int| #[trigger] final(k).task_at(q, t) == old(k).task_at(q, t),
        forall|q: int| q != p ==> #[trigger] final(k).proc_at(q) == old(k).proc_at(q),
{
    let mut st = st;
    k.swap_sync(p, &mut st);
}

/// Creates a mutex (blocking or spinning) in the running process and
/// returns its id, the next unused one. It is free, and the banker's tables
/// gain a resource of one unit.
pub fn sys_mutex_create(k: &mut Kernel, blocking: bool) -> (r: isize)
    requires
        old(k).wf(),
        old(k).current.is_some(),
    ensures
        forall|q: int| q != cur(old(k)).0 ==> #[trigger] final(k).proc_at(q) == old(k).proc_at(q),
        forall|q: int, u: int| #[trigger] final(k).task_at(q, u) == old(k).task_at(q, u),
        final(k).wf(),
        final(k).current == old(k).current,
        final(k).ready == old(k).ready,
        r == -1 <==> sync_of(old(k), cur(old(k)).0 as int).mutex_list@.len() >= 0x7fff_ffff,
        r == -1 ==> sync_of(final(k), cur(old(k)).0 as int) == sync_of(old(k), cur(old(k)).0 as int),
        r == -1 || ({
            let s0 = sync_of(old(k), cur(old(k)).0 as int);
            let s1 = sync_of(final(k), cur(old(k)).0 as int);
            &&& forall|t: int| #[trigger] held_by(&s1.mutex_res, t, r as int) == 0 && need_of(&s1.mutex_res, t, r as int) == 0
            &&& s1.sem_res == s0.sem_res && s1.semaphore_list == s0.semaphore_list
            &&& s1.condvar_list == s0.condvar_list && s1.deadlock_detection_enabled == s0.deadlock_detection_enabled
            &&& forall|i: int| 0 <= i < s0.mutex_list@.len() ==> #[trigger] s1.mutex_list@[i] == s0.mutex_list@[i]
            &&& r == s0.mutex_list@.len()
            &&& s1.mutex_list@.len() == s0.mutex_list@.len() + 1
            &&& !s1.mutex_list@[r as int].is_locked()
            &&& (s1.mutex_list@[r as int] is Blocking) == blocking
            &&& s1.mutex_res.capacity@ == s0.mutex_res.capacity@.push(1)
            &&& s1.mutex_res.available@ == s0.mutex_res.available@.push(1)
        }),
{
    let (p, _t, mut st) = take_sync(k);
    if st.mutex_list.len() >= 0x7fff_ffff {
        put_sync(k, p, st);
        return -1;
    }
    let m = if blocking {
        MutexKind::Blocking(MutexBlocking::new())
    } else {
        MutexKind::Spin(MutexSpin::new())
    };
    let id = st.mutex_res.add_resource(1);
    st.mutex_list.push(m);
    proof {
        assert forall|i: int| 0 <= i < st.mutex_list@.len() implies (#[trigger] st.mutex_list@[i]).wf() by {
            if i < st.mutex_list@.len() - 1 {
                assert(sync_of(old(k), p as int).mutex_list@[i].wf());
            }
        }
    }
    put_sync(k, p, st);
    id as isize
}

/// Locks mutex `mutex_id` for the running task. -1 for an unknown id. With
/// detection on, `DEADLOCK` when granting the request would leave the
/// process unsafe; nothing changes then. Else a free mutex is taken (0); a
/// taken blocking mutex queues and blocks the caller (0 once it is woken
/// holding the lock); a taken spin mutex makes the caller yield (`RETRY`).
pub fn sys_mutex_lock(k: &mut Kernel, mutex_id: usize) -> (r: isize)
    requires
        old(k).wf(),
        old(k).current.is_some(),
    ensures
        final(k).wf(),
        ({
            let (p, t) = cur(old(k));
            let s0 = sync_of(old(k), p as int);
            let s1 = sync_of(final(k), p as int);
            let id = mutex_id as int;
            let a0 = s0.mutex_res;
            let a1 = s1.mutex_res;
            &&& r == -1 <==> mutex_id >= s0.mutex_list@.len() || t >= 0x7fff_ffff
            &&& r == -1 ==> s1 == s0 && final(k).current == old(k).current && final(k).ready == old(k).ready
            &&& r != -1 ==> s1.semaphore_list == s0.semaphore_list && s1.sem_res == s0.sem_res
                && s1.condvar_list == s0.condvar_list && s1.deadlock_detection_enabled == s0.deadlock_detection_enabled
                && s1.mutex_list@.len() == s0.mutex_list@.len() && a1.capacity == a0.capacity
            &&& r == DEADLOCK <==> r != -1 && s0.deadlock_detection_enabled && need_of(&a0, t as int, id) < usize::MAX
                && request_unsafe(&a0, t as int, id)
            &&& r == DEADLOCK ==> s1.mutex_list == s0.mutex_list && final(k).current == old(k).current
                && final(k).ready == old(k).ready && a1.available == a0.available
                && held_by(&a1, t as int, id) == held_by(&a0, t as int, id) && need_of(&a1, t as int, id) == need_of(&a0, t as int, id)
                && crate::banker::rows(&a1.allocation) == crate::banker::pad(crate::banker::rows(&a0.allocation), t + 1, a0.resources())
                && crate::banker::rows(&a1.need) == crate::banker::pad(crate::banker::rows(&a0.need), t + 1, a0.resources())
            &&& r == 0 && !s0.mutex_list@[id].is_locked() ==> final(k).current == old(k).current
                && s1.mutex_list@[id].is_locked()
                && (a0.available@[id] > 0 ==> held_by(&a1, t as int, id) == held_by(&a0, t as int, id) + 1
                    && a1.available@[id] == a0.available@[id] - 1)
            &&& r == 0 && s0.mutex_list@[id].is_locked() ==> final(k).current.is_none()
                && final(k).status_of(p as int, t as int) == TaskStatus::Blocked
                && (s1.mutex_list@[id] matches MutexKind::Blocking(m1)
                    && s0.mutex_list@[id] matches MutexKind::Blocking(m0)
                    && m1.wait_queue@ == m0.wait_queue@.push(t))
                && a1.available == a0.available && held_by(&a1, t as int, id) == held_by(&a0, t as int, id)
                && (need_of(&a0, t as int, id) < usize::MAX ==> need_of(&a1, t as int, id) == need_of(&a0, t as int, id) + 1)
            &&& r == RETRY ==> final(k).current.is_none() && final(k).status_of(p as int, t as int) == TaskStatus::Ready
                && s1.mutex_list@[id].is_locked() && a1.available == a0.available
            &&& r == -1 || r == DEADLOCK || r == 0 || r == RETRY
        }),
{
    let (p, t, mut st) = take_sync(k);
    let ghost s0 = st;
    if mutex_id >= st.mutex_list.len() {
        put_sync(k, p, st);
        return -1;
    }
    if t >= 0x7fff_ffff {
        put_sync(k, p, st);
        return -1;
    }
    st.mutex_res.ensure_thread(t);
    let ghost sp = st;
    proof {
        lemma_padded_entries(&s0.mutex_res, &sp.mutex_res, t as int, mutex_id as int);
    }
    if st.deadlock_detection_enabled {
        assert(crate::banker::rows(&st.mutex_res.need)[t as int] == st.mutex_res.need@[t as int]@);
        if st.mutex_res.need[t][mutex_id] < usize::MAX && st.mutex_res.would_deadlock(t, mutex_id) {
            put_sync(k, p, st);
            return DEADLOCK;
        }
    }
    let mut m = MutexKind::Spin(MutexSpin::new());
    std::mem::swap(&mut st.mutex_list[mutex_id], &mut m);
    assert(m.wf());
    let outcome = match &mut m {
        MutexKind::Spin(s) => s.lock(),
        MutexKind::Blocking(b) => b.lock(t),
    };
    std::mem::swap(&mut st.mutex_list[mutex_id], &mut m);
    match outcome {
        Acquire::Acquired => {
            assert(st.mutex_res == sp.mutex_res);
            if st.mutex_res.available[mutex_id] > 0 {
                st.mutex_res.grant(t, mutex_id);
                assert(crate::banker::rows(&sp.mutex_res.allocation)[t as int] == sp.mutex_res.allocation@[t as int]@);
                assert(held_by(&st.mutex_res, t as int, mutex_id as int) == held_by(&sp.mutex_res, t as int, mutex_id as int) + 1);
            }
            proof { lemma_mutexes_wf(&st, s0, mutex_id); }
            let ghost stv = st;
            put_sync(k, p, st);
            assert(!s0.mutex_list@[mutex_id as int].is_locked());
            assert(stv.mutex_list@[mutex_id as int].is_locked());
            assert(sync_of(k, p as int) == stv);
            0
        },
        Acquire::Blocked => {
            assert(st.mutex_res == sp.mutex_res);
            assert(crate::banker::rows(&st.mutex_res.need)[t as int] == st.mutex_res.need@[t as int]@);
            if st.mutex_res.need[t][mutex_id] < usize::MAX {
                st.mutex_res.request(t, mutex_id);
                assert(need_of(&st.mutex_res, t as int, mutex_id as int) == need_of(&sp.mutex_res, t as int, mutex_id as int) + 1);
            }
            assert(held_by(&st.mutex_res, t as int, mutex_id as int) == held_by(&sp.mutex_res, t as int, mutex_id as int));
            proof { lemma_mutexes_wf(&st, s0, mutex_id); }
            let ghost stv = st;
            put_sync(k, p, st);
            assert(s0.mutex_list@[mutex_id as int].is_locked());
            assert(stv.mutex_list@[mutex_id as int] matches MutexKind::Blocking(m1)
                    && s0.mutex_list@[mutex_id as int] matches MutexKind::Blocking(m0)
                    && m1.wait_queue@ == m0.wait_queue@.push(t));
            let ghost k1 = *k;
            k.block_current();
            assert(k1.has_proc(p as int));
            assert(k.has_proc(p as int));
            assert(sync_of(k, p as int) == stv);
            0
        },
        Acquire::Retry => {
            proof { lemma_mutexes_wf(&st, s0, mutex_id); }
            let ghost stv = st;
            put_sync(k, p, st);
            let ghost k1 = *k;
            k.suspend_current();
            assert(k1.has_proc(p as int));
            assert(k.has_proc(p as int));
            assert(sync_of(k, p as int) == stv);
            RETRY
        },
    }
}

/// A table grown by `ensure_thread(t)` has the same units held and waited
/// for at `(t, r)` as before, and the request test there is the one of the
/// old table.
proof fn lemma_padded_entries(before: &crate::banker::ResourceTable, after: &crate::banker::ResourceTable, t: int, r: int)
    requires
        before.wf(),
        0 <= t,
        0 <= r < before.resources(),
        crate::banker::rows(&after.allocation) == crate::banker::pad(crate::banker::rows(&before.allocation), t + 1, before.resources()),
        crate::banker::rows(&after.need) == crate::banker::pad(crate::banker::rows(&before.need), t + 1, before.resources()),
        after.available == before.available,
        after.capacity == before.capacity,
    ensures
        held_by(after, t, r) == held_by(before, t, r),
        need_of(after, t, r) == need_of(before, t, r),
        t < crate::banker::rows(&after.allocation).len(),
        t < crate::banker::rows(&after.need).len(),
        !crate::banker::is_safe(after.available@, crate::banker::rows(&after.allocation), after.need_with_request(t, r))
            == request_unsafe(before, t, r),
{
    let m = before.resources();
    let ra = crate::banker::rows(&before.allocation);
    let rn = crate::banker::rows(&before.need);
    if t >= ra.len() {
        assert(crate::banker::rows(&after.allocation)[t] == Seq::new(m as nat, |j: int| 0usize));
    }
    if t >= rn.len() {
        assert(crate::banker::rows(&after.need)[t] == Seq::new(m as nat, |j: int| 0usize));
    }
}

/// After one mutex of a well-formed table is replaced by a well-formed one,
/// the state is well-formed again.
proof fn lemma_mutexes_wf(st: &SyncState, s0: SyncState, id: usize)
    requires
        s0.wf(),
        st.mutex_res.wf(),
        st.sem_res.wf(),
        st.mutex_res.resources() == s0.mutex_res.resources(),
        st.sem_res.resources() == s0.sem_res.resources(),
        st.mutex_list@.len() == s0.mutex_list@.len(),
        st.semaphore_list == s0.semaphore_list,
        forall|i: int| 0 <= i < st.mutex_list@.len() && i != id ==> st.mutex_list@[i] == s0.mutex_list@[i],
        id < st.mutex_list@.len() ==> st.mutex_list@[id as int].wf(),
    ensures
        st.wf(),
{
    assert forall|i: int| 0 <= i < st.mutex_list@.len() implies (#[trigger] st.mutex_list@[i]).wf() by {
        if i != id {
            assert(s0.mutex_list@[i].wf());
        }
    }
}


/// The thread that unlocking `m` hands it to: the oldest waiter of a
/// blocking mutex.
pub open spec fn waiter_of(m: MutexKind) -> Option<usize> {
    match m {
        MutexKind::Blocking(b) => if b.wait_queue@.len() > 0 { Some(b.wait_queue@[0]) } else { None },
        MutexKind::Spin(_) => None,
    }
}

/// From `k0` to `k1`, the wake-up of `w` (a thread of process `p`) happened:
/// a blocked thread became ready at the back of the ready queue; otherwise,
/// or with nobody to wake, the ready queue is unchanged.
pub open spec fn wakes(k0: &Kernel, k1: &Kernel, p: usize, w: Option<usize>) -> bool {
    match w {
        Some(x) => if k0.has_task(p as int, x as int) && k0.status_of(p as int, x as int) == TaskStatus::Blocked {
            k1.ready@ == k0.ready@.push((p, x)) && k1.status_of(p as int, x as int) == TaskStatus::Ready
        } else {
            k1.ready == k0.ready
        },
        None => k1.ready == k0.ready,
    }
}

/// The thread that an `up` on `s` wakes: the oldest waiter, when the count
/// shows some.
pub open spec fn sem_waiter(s: Semaphore) -> Option<usize> {
    if s.count < 0 { Some(s.wait_queue@[0]) } else { None }
}

/// Wakes thread `w` of the running process if it is blocked.
fn wake_blocked(k: &mut Kernel, p: usize, w: usize)
    requires
        old(k).wf(),
        old(k).current.is_some(),
        p == cur(old(k)).0,
    ensures
        final(k).wf(),
        final(k).current == old(k).current,
        sync_of(final(k), p as int) == sync_of(old(k), p as int),
        old(k).has_task(p as int, w as int) && old(k).status_of(p as int, w as int) == TaskStatus::Blocked
            ==> final(k).ready@ == old(k).ready@.push((p, w)) && final(k).status_of(p as int, w as int) == TaskStatus::Ready,
        !(old(k).has_task(p as int, w as int) && old(k).status_of(p as int, w as int) == TaskStatus::Blocked)
            ==> final(k).ready == old(k).ready && final(k).procs == old(k).procs,
{
    assert(k.has_task(p as int, cur(k).1 as int));
    assert(k.has_proc(p as int));
    if k.task_status(p, w) == Some(TaskStatus::Blocked) {
        k.wakeup(p, w);
        assert(k.has_proc(p as int));
    }
}

/// Releases mutex `id` held by thread `t` in `st`: the banker's tables get
/// the unit back, and a blocking mutex passes to its oldest waiter, who is
/// returned. `None` as well for a spin mutex.
fn unlock_in(st: &mut SyncState, t: usize, id: usize) -> (r: Option<usize>)
    requires
        old(st).wf(),
        id < old(st).mutex_list@.len(),
        t < 0x7fff_ffff,
        old(st).mutex_list@[id as int].is_locked(),
    ensures
        final(st).wf(),
        final(st).mutex_list@.len() == old(st).mutex_list@.len(),
        final(st).semaphore_list == old(st).semaphore_list,
        final(st).condvar_list == old(st).condvar_list,
        final(st).deadlock_detection_enabled == old(st).deadlock_detection_enabled,
        forall|i: int| 0 <= i < final(st).mutex_list@.len() && i != id ==> final(st).mutex_list@[i] == old(st).mutex_list@[i],
        match old(st).mutex_list@[id as int] {
            MutexKind::Spin(_) => r.is_none() && !final(st).mutex_list@[id as int].is_locked(),
            MutexKind::Blocking(m0) => final(st).mutex_list@[id as int] matches MutexKind::Blocking(m1) && if m0.wait_queue@.len() > 0 {
                r == Some(m0.wait_queue@[0]) && m1.locked && m1.wait_queue@ == m0.wait_queue@.drop_first()
            } else {
                r.is_none() && !m1.locked && m1.wait_queue@.len() == 0
            },
        },
        final(st).sem_res == old(st).sem_res,
        ({
            let a0 = old(st).mutex_res;
            let a1 = final(st).mutex_res;
            let h0 = held_by(&a0, t as int, id as int);
            let ok = a0.capacity@[id as int] < usize::MAX && h0 > 0;
            &&& ok && r.is_none() ==> held_by(&a1, t as int, id as int) == h0 - 1
                && a1.available@[id as int] == a0.available@[id as int] + 1
            &&& ok && (r matches Some(w) && w != t && w < 0x7fff_ffff) ==> held_by(&a1, t as int, id as int) == h0 - 1
                && held_by(&a1, r.unwrap() as int, id as int) == held_by(&a0, r.unwrap() as int, id as int) + 1
                && a1.available@[id as int] == a0.available@[id as int]
        }),
{
    let ghost s0 = *st;
    let mut m = MutexKind::Spin(MutexSpin::new());
    std::mem::swap(&mut st.mutex_list[id], &mut m);
    assert(m.wf());
    let woken = match &mut m {
        MutexKind::Spin(s) => {
            s.unlock();
            None
        },
        MutexKind::Blocking(b) => b.unlock(),
    };
    std::mem::swap(&mut st.mutex_list[id], &mut m);
    st.mutex_res.hand_over(t, id, woken);
    proof { lemma_mutexes_wf(st, s0, id); }
    woken
}

/// Unlocks mutex `mutex_id`: -1 for an unknown id or a free blocking
/// mutex. A blocking mutex passes to its oldest waiter, who becomes ready;
/// with no waiter, or for a spin mutex, it becomes free.
pub fn sys_mutex_unlock(k: &mut Kernel, mutex_id: usize) -> (r: isize)
    requires
        old(k).wf(),
        old(k).current.is_some(),
    ensures
        final(k).wf(),
        final(k).current == old(k).current,
        ({
            let (p, t) = cur(old(k));
            let s0 = sync_of(old(k), p as int);
            let s1 = sync_of(final(k), p as int);
            &&& r == -1 <==> mutex_id >= s0.mutex_list@.len() || !s0.mutex_list@[mutex_id as int].is_locked()
                || t >= 0x7fff_ffff
            &&& r == -1 ==> s1 == s0 && final(k).ready == old(k).ready
            &&& r == 0 ==> match s0.mutex_list@[mutex_id as int] {
                MutexKind::Spin(_) => !s1.mutex_list@[mutex_id as int].is_locked(),
                MutexKind::Blocking(m0) => s1.mutex_list@[mutex_id as int] matches MutexKind::Blocking(m1) && if m0.wait_queue@.len() > 0 {
                    m1.locked && m1.wait_queue@ == m0.wait_queue@.drop_first()
                } else {
                    !m1.locked
                },
            }
            &&& r == 0 ==> wakes(old(k), final(k), p, waiter_of(s0.mutex_list@[mutex_id as int]))
            &&& r == 0 ==> ({
                let a0 = s0.mutex_res;
                let a1 = s1.mutex_res;
                let id = mutex_id as int;
                let h0 = held_by(&a0, t as int, id);
                let ok = a0.capacity@[id] < usize::MAX && h0 > 0;
                let w = waiter_of(s0.mutex_list@[id]);
                &&& ok && w.is_none() ==> held_by(&a1, t as int, id) == h0 - 1 && a1.available@[id] == a0.available@[id] + 1
                &&& ok && (w matches Some(x) && x != t && x < 0x7fff_ffff) ==> held_by(&a1, t as int, id) == h0 - 1
                    && held_by(&a1, w.unwrap() as int, id) == held_by(&a0, w.unwrap() as int, id) + 1
                    && a1.available@[id] == a0.available@[id]
            })
            &&& r == 0 || r == -1
        }),
{
    let (p, t, mut st) = take_sync(k);
    if mutex_id >= st.mutex_list.len() || t >= 0x7fff_ffff {
        put_sync(k, p, st);
        return -1;
    }
    let locked = match &st.mutex_list[mutex_id] {
        MutexKind::Spin(s) => s.locked,
        MutexKind::Blocking(b) => b.locked,
    };
    if !locked {
        put_sync(k, p, st);
        return -1;
    }
    let woken = unlock_in(&mut st, t, mutex_id);
    let ghost stv = st;
    put_sync(k, p, st);
    let ghost kb = *k;
    proof {
        if let Some(w) = woken {
            assert(kb.task_at(p as int, w as int) == old(k).task_at(p as int, w as int));
        }
    }
    if let Some(w) = woken {
        wake_blocked(k, p, w);
    }
    assert(k.has_proc(p as int));
    0
}

/// Creates a semaphore with `res_count` units; returns its id, or -1 when
/// the count does not fit.
pub fn sys_semaphore_create(k: &mut Kernel, res_count: usize) -> (r: isize)
    requires
        old(k).wf(),
        old(k).current.is_some(),
    ensures
        forall|q: int| q != cur(old(k)).0 ==> #[trigger] final(k).proc_at(q) == old(k).proc_at(q),
        forall|q: int, u: int| #[trigger] final(k).task_at(q, u) == old(k).task_at(q, u),
        final(k).wf(),
        final(k).current == old(k).current,
        final(k).ready == old(k).ready,
        r == -1 <==> res_count > isize::MAX || sync_of(old(k), cur(old(k)).0 as int).semaphore_list@.len() >= 0x7fff_ffff,
        r == -1 ==> sync_of(final(k), cur(old(k)).0 as int) == sync_of(old(k), cur(old(k)).0 as int),
        r == -1 || ({
            let s0 = sync_of(old(k), cur(old(k)).0 as int);
            let s1 = sync_of(final(k), cur(old(k)).0 as int);
            &&& s1.sem_res.available@ == s0.sem_res.available@.push(res_count)
            &&& forall|t: int| #[trigger] held_by(&s1.sem_res, t, r as int) == 0 && need_of(&s1.sem_res, t, r as int) == 0
            &&& s1.mutex_res == s0.mutex_res && s1.mutex_list == s0.mutex_list
            &&& s1.condvar_list == s0.condvar_list && s1.deadlock_detection_enabled == s0.deadlock_detection_enabled
            &&& forall|i: int| 0 <= i < s0.semaphore_list@.len() ==> #[trigger] s1.semaphore_list@[i] == s0.semaphore_list@[i]
            &&& r == s0.semaphore_list@.len()
            &&& s1.semaphore_list@.len() == s0.semaphore_list@.len() + 1
            &&& s1.semaphore_list@[r as int].count == res_count
            &&& s1.semaphore_list@[r as int].wait_queue@.len() == 0
            &&& s1.sem_res.capacity@ == s0.sem_res.capacity@.push(res_count)
        }),
{
    let (p, _t, mut st) = take_sync(k);
    if res_count > isize::MAX as usize || st.semaphore_list.len() >= 0x7fff_ffff {
        put_sync(k, p, st);
        return -1;
    }
    let id = st.sem_res.add_resource(res_count);
    st.semaphore_list.push(Semaphore::new(res_count));
    proof {
        assert forall|i: int| 0 <= i < st.semaphore_list@.len() implies (#[trigger] st.semaphore_list@[i]).wf() by {
            if i < st.semaphore_list@.len() - 1 {
                assert(sync_of(old(k), p as int).semaphore_list@[i].wf());
            }
        }
    }
    put_sync(k, p, st);
    id as isize
}

proof fn lemma_sems_wf(st: &SyncState, s0: SyncState, id: usize)
    requires
        s0.wf(),
        st.mutex_res.wf(),
        st.sem_res.wf(),
        st.mutex_res.resources() == s0.mutex_res.resources(),
        st.sem_res.resources() == s0.sem_res.resources(),
        st.semaphore_list@.len() == s0.semaphore_list@.len(),
        st.mutex_list == s0.mutex_list,
        forall|i: int| 0 <= i < st.semaphore_list@.len() && i != id ==> st.semaphore_list@[i] == s0.semaphore_list@[i],
        id < st.semaphore_list@.len() ==> st.semaphore_list@[id as int].wf(),
    ensures
        st.wf(),
{
    assert forall|i: int| 0 <= i < st.semaphore_list@.len() implies (#[trigger] st.semaphore_list@[i]).wf() by {
        if i != id {
            assert(s0.semaphore_list@[i].wf());
        }
    }
    assert forall|i: int| 0 <= i < st.mutex_list@.len() implies (#[trigger] st.mutex_list@[i]).wf() by {
        assert(s0.mutex_list@[i].wf());
    }
}

/// Releases a unit of semaphore `sem_id`; the oldest waiter, if any, gets it
/// and becomes ready. -1 for an unknown id or a count at its maximum.
pub fn sys_semaphore_up(k: &mut Kernel, sem_id: usize) -> (r: isize)
    requires
        old(k).wf(),
        old(k).current.is_some(),
    ensures
        final(k).wf(),
        final(k).current == old(k).current,
        ({
            let (p, t) = cur(old(k));
            let s0 = sync_of(old(k), p as int);
            let s1 = sync_of(final(k), p as int);
            &&& r == -1 <==> sem_id >= s0.semaphore_list@.len() || s0.semaphore_list@[sem_id as int].count == isize::MAX
                || t >= 0x7fff_ffff
            &&& r == -1 ==> s1 == s0 && final(k).ready == old(k).ready
            &&& r == 0 ==> s1.semaphore_list@[sem_id as int].count == s0.semaphore_list@[sem_id as int].count + 1
                && s1.semaphore_list@[sem_id as int].wait_queue@ == if s0.semaphore_list@[sem_id as int].count < 0 {
                    s0.semaphore_list@[sem_id as int].wait_queue@.drop_first()
                } else {
                    s0.semaphore_list@[sem_id as int].wait_queue@
                }
            &&& r == 0 ==> wakes(old(k), final(k), p, sem_waiter(s0.semaphore_list@[sem_id as int]))
            &&& r == 0 ==> ({
                let a0 = s0.sem_res;
                let a1 = s1.sem_res;
                let id = sem_id as int;
                let h0 = held_by(&a0, t as int, id);
                let ok = a0.capacity@[id] < usize::MAX && h0 > 0;
                let w = sem_waiter(s0.semaphore_list@[id]);
                &&& ok && w.is_none() ==> held_by(&a1, t as int, id) == h0 - 1 && a1.available@[id] == a0.available@[id] + 1
                &&& ok && (w matches Some(x) && x != t && x < 0x7fff_ffff) ==> held_by(&a1, t as int, id) == h0 - 1
                    && held_by(&a1, w.unwrap() as int, id) == held_by(&a0, w.unwrap() as int, id) + 1
                    && a1.available@[id] == a0.available@[id]
            })
            &&& r == 0 || r == -1
        }),
{
    let (p, t, mut st) = take_sync(k);
    let ghost s0 = st;
    if sem_id >= st.semaphore_list.len() || t >= 0x7fff_ffff {
        put_sync(k, p, st);
        return -1;
    }
    if st.semaphore_list[sem_id].count == isize::MAX {
        put_sync(k, p, st);
        return -1;
    }
    let mut sem = Semaphore { count: 0, wait_queue: Vec::new() };
    std::mem::swap(&mut st.semaphore_list[sem_id], &mut sem);
    assert(sem.wf());
    let woken = sem.up();
    std::mem::swap(&mut st.semaphore_list[sem_id], &mut sem);
    st.sem_res.hand_over(t, sem_id, woken);
    proof { lemma_sems_wf(&st, s0, sem_id); }
    let ghost stv = st;
    put_sync(k, p, st);
    let ghost kb = *k;
    proof {
        if let Some(w) = woken {
            assert(kb.task_at(p as int, w as int) == old(k).task_at(p as int, w as int));
        }
    }
    if let Some(w) = woken {
        wake_blocked(k, p, w);
    }
    assert(k.has_proc(p as int));
    0
}

/// Takes a unit of semaphore `sem_id`, or blocks the caller in its queue.
/// -1 for an unknown id or a count at its minimum; with detection on,
/// `DEADLOCK` when granting the request would leave the process unsafe.
pub fn sys_semaphore_down(k: &mut Kernel, sem_id: usize) -> (r: isize)
    requires
        old(k).wf(),
        old(k).current.is_some(),
    ensures
        final(k).wf(),
        ({
            let (p, t) = cur(old(k));
            let s0 = sync_of(old(k), p as int);
            let s1 = sync_of(final(k), p as int);
            let id = sem_id as int;
            let a0 = s0.sem_res;
            let a1 = s1.sem_res;
            &&& r == -1 <==> sem_id >= s0.semaphore_list@.len() || t >= 0x7fff_ffff
                || s0.semaphore_list@[id].count <= isize::MIN + 1
            &&& r == -1 ==> s1 == s0 && final(k).current == old(k).current && final(k).ready == old(k).ready
            &&& r != -1 ==> s1.mutex_list == s0.mutex_list && s1.mutex_res == s0.mutex_res
                && s1.condvar_list == s0.condvar_list && s1.deadlock_detection_enabled == s0.deadlock_detection_enabled
                && s1.semaphore_list@.len() == s0.semaphore_list@.len() && a1.capacity == a0.capacity
            &&& r == DEADLOCK <==> r != -1 && s0.deadlock_detection_enabled && need_of(&a0, t as int, id) < usize::MAX
                && request_unsafe(&a0, t as int, id)
            &&& r == DEADLOCK ==> s1.semaphore_list == s0.semaphore_list && final(k).current == old(k).current
                && final(k).ready == old(k).ready && a1.available == a0.available
                && held_by(&a1, t as int, id) == held_by(&a0, t as int, id) && need_of(&a1, t as int, id) == need_of(&a0, t as int, id)
                && crate::banker::rows(&a1.allocation) == crate::banker::pad(crate::banker::rows(&a0.allocation), t + 1, a0.resources())
                && crate::banker::rows(&a1.need) == crate::banker::pad(crate::banker::rows(&a0.need), t + 1, a0.resources())
            &&& r == 0 ==> s1.semaphore_list@[id].count == s0.semaphore_list@[id].count - 1
            &&& r == 0 && s0.semaphore_list@[id].count > 0 ==> final(k).current == old(k).current
                && (a0.available@[id] > 0 ==> held_by(&a1, t as int, id) == held_by(&a0, t as int, id) + 1
                    && a1.available@[id] == a0.available@[id] - 1)
            &&& r == 0 && s0.semaphore_list@[id].count <= 0 ==> final(k).current.is_none()
                && final(k).status_of(p as int, t as int) == TaskStatus::Blocked
                && s1.semaphore_list@[id].wait_queue@ == s0.semaphore_list@[id].wait_queue@.push(t)
                && a1.available == a0.available && held_by(&a1, t as int, id) == held_by(&a0, t as int, id)
                && (need_of(&a0, t as int, id) < usize::MAX ==> need_of(&a1, t as int, id) == need_of(&a0, t as int, id) + 1)
            &&& r == -1 || r == DEADLOCK || r == 0
        }),
{
    let (p, t, mut st) = take_sync(k);
    let ghost s0 = st;
    if sem_id >= st.semaphore_list.len() || t >= 0x7fff_ffff {
        put_sync(k, p, st);
        return -1;
    }
    if st.semaphore_list[sem_id].count <= isize::MIN + 1 {
        put_sync(k, p, st);
        return -1;
    }
    st.sem_res.ensure_thread(t);
    let ghost sp = st;
    proof {
        lemma_padded_entries(&s0.sem_res, &sp.sem_res, t as int, sem_id as int);
    }
    if st.deadlock_detection_enabled {
        assert(crate::banker::rows(&st.sem_res.need)[t as int] == st.sem_res.need@[t as int]@);
        if st.sem_res.need[t][sem_id] < usize::MAX && st.sem_res.would_deadlock(t, sem_id) {
            put_sync(k, p, st);
            return DEADLOCK;
        }
    }
    let mut sem = Semaphore { count: 0, wait_queue: Vec::new() };
    std::mem::swap(&mut st.semaphore_list[sem_id], &mut sem);
    assert(sem.wf());
    let outcome = sem.down(t);
    std::mem::swap(&mut st.semaphore_list[sem_id], &mut sem);
    match outcome {
        Acquire::Blocked => {
            assert(st.sem_res == sp.sem_res);
            assert(crate::banker::rows(&st.sem_res.need)[t as int] == st.sem_res.need@[t as int]@);
            if st.sem_res.need[t][sem_id] < usize::MAX {
                st.sem_res.request(t, sem_id);
                assert(need_of(&st.sem_res, t as int, sem_id as int) == need_of(&sp.sem_res, t as int, sem_id as int) + 1);
            }
            assert(held_by(&st.sem_res, t as int, sem_id as int) == held_by(&sp.sem_res, t as int, sem_id as int));
            proof { lemma_sems_wf(&st, s0, sem_id); }
            let ghost stv = st;
            put_sync(k, p, st);
            let ghost k1 = *k;
            k.block_current();
            assert(k1.has_proc(p as int));
            assert(k.has_proc(p as int));
            assert(sync_of(k, p as int) == stv);
            0
        },
        _ => {
            assert(st.sem_res == sp.sem_res);
            if st.sem_res.available[sem_id] > 0 {
                st.sem_res.grant(t, sem_id);
                assert(crate::banker::rows(&sp.sem_res.allocation)[t as int] == sp.sem_res.allocation@[t as int]@);
                assert(held_by(&st.sem_res, t as int, sem_id as int) == held_by(&sp.sem_res, t as int, sem_id as int) + 1);
            }
            proof { lemma_sems_wf(&st, s0, sem_id); }
            put_sync(k, p, st);
            0
        },
    }
}

/// Creates a condition variable; returns its id.
pub fn sys_condvar_create(k: &mut Kernel) -> (r: isize)
    requires
        old(k).wf(),
        old(k).current.is_some(),
    ensures
        forall|q: int| q != cur(old(k)).0 ==> #[trigger] final(k).proc_at(q) == old(k).proc_at(q),
        forall|q: int, u: int| #[trigger] final(k).task_at(q, u) == old(k).task_at(q, u),
        final(k).wf(),
        final(k).current == old(k).current,
        final(k).ready == old(k).ready,
        r == -1 <==> sync_of(old(k), cur(old(k)).0 as int).condvar_list@.len() >= 0x7fff_ffff,
        r == -1 || ({
            let s0 = sync_of(old(k), cur(old(k)).0 as int);
            let s1 = sync_of(final(k), cur(old(k)).0 as int);
            &&& s1.mutex_list == s0.mutex_list && s1.semaphore_list == s0.semaphore_list
            &&& s1.mutex_res == s0.mutex_res && s1.sem_res == s0.sem_res
            &&& s1.deadlock_detection_enabled == s0.deadlock_detection_enabled
            &&& forall|i: int| 0 <= i < s0.condvar_list@.len() ==> #[trigger] s1.condvar_list@[i] == s0.condvar_list@[i]
            &&& r == s0.condvar_list@.len()
            &&& s1.condvar_list@.len() == s0.condvar_list@.len() + 1
            &&& s1.condvar_list@[r as int].wait_queue@.len() == 0
        }),
{
    let (p, _t, mut st) = take_sync(k);
    if st.condvar_list.len() >= 0x7fff_ffff {
        put_sync(k, p, st);
        return -1;
    }
    let id = st.condvar_list.len();
    st.condvar_list.push(Condvar::new());
    proof {
        let s0 = sync_of(old(k), p as int);
        assert forall|i: int| 0 <= i < st.mutex_list@.len() implies (#[trigger] st.mutex_list@[i]).wf() by {
            assert(s0.mutex_list@[i].wf());
        }
        assert forall|i: int| 0 <= i < st.semaphore_list@.len() implies (#[trigger] st.semaphore_list@[i]).wf() by {
            assert(s0.semaphore_list@[i].wf());
        }
    }
    put_sync(k, p, st);
    id as isize
}

/// Wakes the oldest waiter of condition variable `condvar_id`, which takes
/// its mutex again: at once when the mutex is free, else by queueing on it.
pub fn sys_condvar_signal(k: &mut Kernel, condvar_id: usize) -> (r: isize)
    requires
        old(k).wf(),
        old(k).current.is_some(),
    ensures
        final(k).wf(),
        final(k).current == old(k).current,
        ({
            let s0 = sync_of(old(k), cur(old(k)).0 as int);
            let s1 = sync_of(final(k), cur(old(k)).0 as int);
            &&& r == -1 <==> condvar_id >= s0.condvar_list@.len()
            &&& r == -1 ==> s1 == s0 && final(k).ready == old(k).ready
            &&& r == 0 ==> s1.condvar_list@[condvar_id as int].wait_queue@ == if s0.condvar_list@[condvar_id as int].wait_queue@.len() > 0 {
                s0.condvar_list@[condvar_id as int].wait_queue@.drop_first()
            } else {
                s0.condvar_list@[condvar_id as int].wait_queue@
            }
            &&& r == 0 && s0.condvar_list@[condvar_id as int].wait_queue@.len() == 0 ==> final(k).ready == old(k).ready
            &&& r == 0 && s0.condvar_list@[condvar_id as int].wait_queue@.len() > 0 ==> ({
                let w = s0.condvar_list@[condvar_id as int].wait_queue@[0].0;
                let mid = s0.condvar_list@[condvar_id as int].wait_queue@[0].1;
                if mid < s0.mutex_list@.len() && w < 0x7fff_ffff && s0.mutex_list@[mid as int] is Blocking
                    && s0.mutex_list@[mid as int].is_locked() {
                    final(k).ready == old(k).ready && (s1.mutex_list@[mid as int] matches MutexKind::Blocking(m1)
                        && s0.mutex_list@[mid as int] matches MutexKind::Blocking(m0)
                        && m1.wait_queue@ == m0.wait_queue@.push(w))
                } else {
                    wakes(old(k), final(k), cur(old(k)).0, Some(w))
                }
            })
            &&& r == 0 || r == -1
        }),
{
    let (p, _t, mut st) = take_sync(k);
    let ghost s0 = st;
    if condvar_id >= st.condvar_list.len() {
        put_sync(k, p, st);
        return -1;
    }
    let mut cv = Condvar::new();
    std::mem::swap(&mut st.condvar_list[condvar_id], &mut cv);
    let woken = cv.signal();
    std::mem::swap(&mut st.condvar_list[condvar_id], &mut cv);
    let mut wake: Option<usize> = None;
    if let Some((w, mid)) = woken {
        if mid < st.mutex_list.len() && w < 0x7fff_ffff {
            st.mutex_res.ensure_thread(w);
            let mut m = MutexKind::Spin(MutexSpin::new());
            std::mem::swap(&mut st.mutex_list[mid], &mut m);
            assert(m.wf());
            let outcome = match &mut m {
                MutexKind::Spin(s) => s.lock(),
                MutexKind::Blocking(b) => b.lock(w),
            };
            std::mem::swap(&mut st.mutex_list[mid], &mut m);
            match outcome {
                Acquire::Blocked => {
                    assert(crate::banker::rows(&st.mutex_res.need)[w as int] == st.mutex_res.need@[w as int]@);
                    if st.mutex_res.need[w][mid] < usize::MAX {
                        st.mutex_res.request(w, mid);
                    }
                },
                _ => {
                    if st.mutex_res.available[mid] > 0 {
                        st.mutex_res.grant(w, mid);
                    }
                    wake = Some(w);
                },
            }
            proof { lemma_mutexes_wf(&st, s0, mid); }
        } else {
            wake = Some(w);
        }
    }
    proof {
        assert forall|i: int| 0 <= i < st.mutex_list@.len() implies (#[trigger] st.mutex_list@[i]).wf() by {}
        assert forall|i: int| 0 <= i < st.semaphore_list@.len() implies (#[trigger] st.semaphore_list@[i]).wf() by {
            assert(s0.semaphore_list@[i].wf());
        }
    }
    let ghost stv = st;
    put_sync(k, p, st);
    let ghost kb = *k;
    proof {
        if let Some(w) = wake {
            assert(kb.task_at(p as int, w as int) == old(k).task_at(p as int, w as int));
        }
    }
    if let Some(w) = wake {
        wake_blocked(k, p, w);
    }
    assert(k.has_proc(p as int));
    0
}

/// Releases blocking mutex `mutex_id` (passing it to its oldest waiter) and
/// sleeps on condition variable `condvar_id` until signalled. -1 for an
/// unknown id, a spin mutex, or a mutex that is not locked.
pub fn sys_condvar_wait(k: &mut Kernel, condvar_id: usize, mutex_id: usize) -> (r: isize)
    requires
        old(k).wf(),
        old(k).current.is_some(),
    ensures
        final(k).wf(),
        ({
            let (p, t) = cur(old(k));
            let s0 = sync_of(old(k), p as int);
            let s1 = sync_of(final(k), p as int);
            &&& r == -1 <==> condvar_id >= s0.condvar_list@.len() || mutex_id >= s0.mutex_list@.len() || t >= 0x7fff_ffff
                || !(s0.mutex_list@[mutex_id as int] is Blocking && s0.mutex_list@[mutex_id as int].is_locked())
            &&& r == -1 ==> s1 == s0 && final(k).current == old(k).current && final(k).ready == old(k).ready
            &&& r == 0 ==> final(k).current.is_none() && final(k).status_of(p as int, t as int) == TaskStatus::Blocked
                && s1.condvar_list@[condvar_id as int].wait_queue@ == s0.condvar_list@[condvar_id as int].wait_queue@.push((t, mutex_id))
                && s0.mutex_list@[mutex_id as int] is Blocking
                && (s1.mutex_list@[mutex_id as int] matches MutexKind::Blocking(m1)
                    && s0.mutex_list@[mutex_id as int] matches MutexKind::Blocking(m0)
                    && if m0.wait_queue@.len() > 0 {
                        m1.locked && m1.wait_queue@ == m0.wait_queue@.drop_first()
                    } else {
                        !m1.locked
                    })
            &&& r == 0 || r == -1
        }),
{
    let (p, t, mut st) = take_sync(k);
    let ghost s0 = st;
    if condvar_id >= st.condvar_list.len() || mutex_id >= st.mutex_list.len() || t >= 0x7fff_ffff {
        put_sync(k, p, st);
        return -1;
    }
    let ok = match &st.mutex_list[mutex_id] {
        MutexKind::Spin(_) => false,
        MutexKind::Blocking(b) => b.locked,
    };
    if !ok {
        put_sync(k, p, st);
        return -1;
    }
    let woken = unlock_in(&mut st, t, mutex_id);
    let mut cv = Condvar::new();
    std::mem::swap(&mut st.condvar_list[condvar_id], &mut cv);
    cv.wait(t, mutex_id);
    std::mem::swap(&mut st.condvar_list[condvar_id], &mut cv);
    let ghost stv = st;
    put_sync(k, p, st);
    if let Some(w) = woken {
        wake_blocked(k, p, w);
    }
    proof {
        assert(k.has_proc(p as int));
        assert(k.has_task(p as int, t as int)) by {
            assert(old(k).has_task(p as int, t as int));
        }
    }
    k.block_current();
    assert(k.has_proc(p as int));
    0
}

/// Turns deadlock detection on (1) or off (0) for the running process; any
/// other value is refused with -1.
pub fn sys_enable_deadlock_detect(k: &mut Kernel, enabled: usize) -> (r: isize)
    requires
        old(k).wf(),
        old(k).current.is_some(),
    ensures
        final(k).wf(),
        final(k).current == old(k).current,
        final(k).ready == old(k).ready,
        ({
            let s0 = sync_of(old(k), cur(old(k)).0 as int);
            let s1 = sync_of(final(k), cur(old(k)).0 as int);
            &&& enabled > 1 ==> r == -1 && s1 == s0
            &&& enabled <= 1 ==> r == 0 && s1.deadlock_detection_enabled == (enabled == 1)
                && s1.mutex_list == s0.mutex_list && s1.semaphore_list == s0.semaphore_list
        }),
{
    let (p, _t, mut st) = take_sync(k);
    if enabled != 0 && enabled != 1 {
        put_sync(k, p, st);
        return -1;
    }
    st.deadlock_detection_enabled = enabled == 1;
    put_sync(k, p, st);
    0
}

} // verus!
