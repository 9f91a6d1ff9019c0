//! Clock arithmetic, sleeping tasks and the laws of the task model.
use crate::config::{CLOCK_FREQ, TICKS_PER_SEC};
use crate::process::wait_match;
use crate::task::{Kernel, TaskStatus};
use vstd::prelude::*;

verus! {

/// Milliseconds per second.
pub const MSEC_PER_SEC: u64 = 1000;

/// Microseconds per second.
pub const MICRO_PER_SEC: u64 = 1_000_000;

/// The clock value at which the next timer interrupt is due, one tick
/// (1/`TICKS_PER_SEC` s) after `now`.
pub fn set_next_trigger(now: u64) -> (r: u64)
    requires
        now + CLOCK_FREQ / TICKS_PER_SEC <= u64::MAX,
    ensures
        r == now + CLOCK_FREQ / TICKS_PER_SEC,
{
    now + CLOCK_FREQ / TICKS_PER_SEC
}

/// Milliseconds elapsed for clock value `ticks`.
pub fn get_time_ms(ticks: u64) -> (r: u64)
    requires
        ticks <= u64::MAX / MSEC_PER_SEC,
    ensures
        r == (ticks as int * MSEC_PER_SEC as int) / CLOCK_FREQ as int,
{
    ticks * MSEC_PER_SEC / CLOCK_FREQ
}

/// Microseconds elapsed for clock value `ticks`.
pub fn get_time_us(ticks: u64) -> (r: u64)
    requires
        ticks <= u64::MAX / MICRO_PER_SEC,
    ensures
        r == (ticks as int * MICRO_PER_SEC as int) / CLOCK_FREQ as int,
{
    ticks * MICRO_PER_SEC / CLOCK_FREQ
}

/// Seconds and microseconds, as `get_time` reports them.
#[derive(Clone, Copy, PartialEq, Eq, Structural, Debug)]
pub struct TimeVal {
    pub sec: u64,
    pub usec: u64,
}

impl TimeVal {
    pub fn from_us(us: u64) -> (r: Self)
        ensures
            r.sec == us / MICRO_PER_SEC,
            r.usec == us % MICRO_PER_SEC,
            r.sec * MICRO_PER_SEC + r.usec == us,
    {
        TimeVal { sec: us / MICRO_PER_SEC, usec: us % MICRO_PER_SEC }
    }
}

/// The time of day for `get_time`, from the microseconds the clock shows.
pub fn sys_get_time(us: u64) -> (r: TimeVal)
    ensures
        r.sec == us / MICRO_PER_SEC,
        r.usec == us % MICRO_PER_SEC,
{
    TimeVal::from_us(us)
}

/// What `task_info` reports of a task.
pub struct TaskInfo {
    pub status: TaskStatus,
    pub syscall_times: Vec<u32>,
    pub time: u64,
}

/// The sleep queue plays no part in the kernel's invariant.
proof fn lemma_timers_irrelevant(a: &Kernel, b: &Kernel)
    requires
        a.wf(),
        a.procs == b.procs,
        a.pids == b.pids,
        a.ready == b.ready,
        a.current == b.current,
    ensures
        b.wf(),
{
    a.lemma_same_procs_shape(b);
    assert forall|k: int|
        0 <= k < b.ready@.len() implies b.has_task(
            #[trigger] b.ready@[k].0 as int,
            b.ready@[k].1 as int,
        ) && b.status_of(b.ready@[k].0 as int, b.ready@[k].1 as int)
            == TaskStatus::Ready && !b.proc_at(b.ready@[k].0 as int).unwrap().is_zombie by {
        assert(a.has_task(a.ready@[k].0 as int, a.ready@[k].1 as int));
    }
    assert forall|q: int, t: int| #[trigger] b.has_task(q, t) implies b.task_at(q, t).unwrap().priority >= 1 by {
        assert(a.has_task(q, t));
    }
    a.lemma_same_shape_wf(b);
}

impl Kernel {
    /// Makes task `(pid, tid)` ready if it exists, is blocked and its process
    /// lives; else nothing changes. Returns whether it woke it.
    pub fn wake_if_blocked(&mut self, pid: usize, tid: usize) -> (r: bool)
        requires
            old(self).wf(),
        ensures
            final(self).wf(),
            final(self).current == old(self).current,
            r == (old(self).has_task(pid as int, tid as int) && old(self).status_of(pid as int, tid as int) == TaskStatus::Blocked
                && !old(self).proc_at(pid as int).unwrap().is_zombie),
            r ==> final(self).ready@ == old(self).ready@.push((pid, tid)),
            !r ==> final(self).ready == old(self).ready && final(self).procs == old(self).procs,
            old(self).same_shape(final(self)),
            forall|q: int, t: int|
                #[trigger] final(self).task_at(q, t) == if r && q == pid && t == tid {
                    Some(crate::task::TaskControlBlock { status: TaskStatus::Ready, ..old(self).task_at(q, t).unwrap() })
                } else {
                    old(self).task_at(q, t)
                },
    {
        if self.task_status(pid, tid) == Some(TaskStatus::Blocked) {
            assert(self.has_proc(pid as int));
            if !self.procs[pid].as_ref().unwrap().is_zombie {
                self.wakeup(pid, tid);
                return true;
            }
        }
        proof {
            old(self).lemma_same_procs_shape(self);
        }
        false
    }

    /// Wakes the sleepers whose time has come (expiry at or before `now`)
    /// and keeps the others, in order.
    pub fn check_timer(&mut self, now: u64)
        requires
            old(self).wf(),
        ensures
            final(self).wf(),
            final(self).current == old(self).current,
            final(self).timers@ == old(self).timers@.filter(|e: (u64, usize, usize)| e.0 > now),
            old(self).ready@.len() <= final(self).ready@.len(),
            final(self).ready@.take(old(self).ready@.len() as int) == old(self).ready@,
            forall|j: int| 0 <= j < old(self).timers@.len() && (#[trigger] old(self).timers@[j]).0 <= now ==> {
                let e = old(self).timers@[j];
                old(self).has_task(e.1 as int, e.2 as int) && old(self).status_of(e.1 as int, e.2 as int) == TaskStatus::Blocked
                    && !old(self).proc_at(e.1 as int).unwrap().is_zombie
                    ==> final(self).status_of(e.1 as int, e.2 as int) == TaskStatus::Ready && final(self).ready@.contains((e.1, e.2))
            },
    {
        let mut ts: Vec<(u64, usize, usize)> = Vec::new();
        std::mem::swap(&mut self.timers, &mut ts);
        proof {
            lemma_timers_irrelevant(old(self), self);
        }
        let mut kept: Vec<(u64, usize, usize)> = Vec::new();
        let mut i: usize = 0;
        while i < ts.len()
            invariant
                self.wf(),
                self.current == old(self).current,
                ts@ == old(self).timers@,
                i <= ts@.len(),
                kept@ == ts@.take(i as int).filter(|e: (u64, usize, usize)| e.0 > now),
                old(self).same_shape(self),
                old(self).ready@.len() <= self.ready@.len(),
                self.ready@.take(old(self).ready@.len() as int) == old(self).ready@,
                forall|q: int, u: int| #[trigger] self.task_at(q, u) == old(self).task_at(q, u)
                    || (old(self).has_task(q, u) && self.status_of(q, u) == TaskStatus::Ready && self.ready@.contains((q as usize, u as usize))),
                forall|j: int| 0 <= j < i && (#[trigger] ts@[j]).0 <= now ==> {
                    let e = ts@[j];
                    old(self).has_task(e.1 as int, e.2 as int) && old(self).status_of(e.1 as int, e.2 as int) == TaskStatus::Blocked
                        && !old(self).proc_at(e.1 as int).unwrap().is_zombie
                        ==> self.status_of(e.1 as int, e.2 as int) == TaskStatus::Ready && self.ready@.contains((e.1, e.2))
                },
            decreases ts@.len() - i,
        {
            let e = ts[i];
            let ghost before = *self;
            proof {
                reveal(Seq::filter);
                assert(ts@.take(i + 1).drop_last() =~= ts@.take(i as int));
            }
            if e.0 > now {
                kept.push(e);
            } else {
                let woke = self.wake_if_blocked(e.1, e.2);
                proof {
                    before.lemma_same_shape_trans_from(*old(self), self);
                    if woke {
                        assert(self.ready@.take(old(self).ready@.len() as int) =~= before.ready@.take(old(self).ready@.len() as int));
                        assert(self.ready@[before.ready@.len() as int] == (e.1, e.2));
                        assert forall|x: (usize, usize)| before.ready@.contains(x) implies self.ready@.contains(x) by {
                            let j = before.ready@.index_of(x);
                            assert(self.ready@[j] == x);
                        }
                    }
                    assert forall|q: int, u: int| #[trigger] self.task_at(q, u) == old(self).task_at(q, u)
                        || (old(self).has_task(q, u) && self.status_of(q, u) == TaskStatus::Ready && self.ready@.contains((q as usize, u as usize))) by {
                        assert(before.task_at(q, u) == old(self).task_at(q, u)
                            || (old(self).has_task(q, u) && before.status_of(q, u) == TaskStatus::Ready && before.ready@.contains((q as usize, u as usize))));
                        if woke && q == e.1 && u == e.2 {
                            assert(self.ready@[before.ready@.len() as int] == (e.1, e.2));
                            assert(before.has_task(q, u));
                        }
                    }
                    if old(self).has_task(e.1 as int, e.2 as int) && old(self).status_of(e.1 as int, e.2 as int) == TaskStatus::Blocked
                        && !old(self).proc_at(e.1 as int).unwrap().is_zombie {
                        assert(before.has_proc(e.1 as int));
                        assert(old(self).has_proc(e.1 as int));
                        if !woke {
                            assert(before.task_at(e.1 as int, e.2 as int) != old(self).task_at(e.1 as int, e.2 as int));
                        }
                    }
                }
            }
            proof {
                assert(ts@.take(i + 1).drop_last() =~= ts@.take(i as int));
                assert forall|j: int| 0 <= j < i + 1 && (#[trigger] ts@[j]).0 <= now implies {
                    let e = ts@[j];
                    old(self).has_task(e.1 as int, e.2 as int) && old(self).status_of(e.1 as int, e.2 as int) == TaskStatus::Blocked
                        && !old(self).proc_at(e.1 as int).unwrap().is_zombie
                        ==> self.status_of(e.1 as int, e.2 as int) == TaskStatus::Ready && self.ready@.contains((e.1, e.2))
                } by {
                    let f = ts@[j];
                    if j < i && old(self).has_task(f.1 as int, f.2 as int) && old(self).status_of(f.1 as int, f.2 as int) == TaskStatus::Blocked
                        && !old(self).proc_at(f.1 as int).unwrap().is_zombie {
                        assert(before.status_of(f.1 as int, f.2 as int) == TaskStatus::Ready);
                        assert(self.task_at(f.1 as int, f.2 as int) == before.task_at(f.1 as int, f.2 as int));
                        let jj = before.ready@.index_of((f.1, f.2));
                        assert(self.ready@[jj] == (f.1, f.2));
                    }
                }
            }
            i = i + 1;
        }
        assert(ts@.take(ts@.len() as int) =~= ts@);
        let ghost before = *self;
        self.timers = kept;
        proof {
            lemma_timers_irrelevant(&before, self);
            assert forall|j: int| 0 <= j < old(self).timers@.len() && (#[trigger] old(self).timers@[j]).0 <= now implies {
                let e = old(self).timers@[j];
                old(self).has_task(e.1 as int, e.2 as int) && old(self).status_of(e.1 as int, e.2 as int) == TaskStatus::Blocked
                    && !old(self).proc_at(e.1 as int).unwrap().is_zombie
                    ==> self.status_of(e.1 as int, e.2 as int) == TaskStatus::Ready && self.ready@.contains((e.1, e.2))
            } by {
                assert(ts@[j] == old(self).timers@[j]);
                let e = ts@[j];
                assert(self.task_at(e.1 as int, e.2 as int) == before.task_at(e.1 as int, e.2 as int));
            }
        }
    }
}

/// The running task sleeps for `ms` milliseconds from `now_ms`: it joins
/// the sleepers and blocks until `check_timer` passes its expiry.
pub fn sys_sleep(k: &mut Kernel, ms: u64, now_ms: u64) -> (r: isize)
    requires
        old(k).wf(),
        old(k).current.is_some(),
    ensures
        final(k).wf(),
        r == 0,
        final(k).current.is_none(),
        final(k).timers@ == old(k).timers@.push((
            if now_ms + ms > u64::MAX { u64::MAX } else { (now_ms + ms) as u64 },
            old(k).current.unwrap().0,
            old(k).current.unwrap().1,
        )),
        final(k).status_of(old(k).current.unwrap().0 as int, old(k).current.unwrap().1 as int) == TaskStatus::Blocked,
{
    let (p, t) = k.current.unwrap();
    let expire = now_ms.saturating_add(ms);
    let mut ts: Vec<(u64, usize, usize)> = Vec::new();
    std::mem::swap(&mut k.timers, &mut ts);
    proof {
        lemma_timers_irrelevant(old(k), k);
    }
    ts.push((expire, p, t));
    let ghost k1 = *k;
    k.block_current();
    let ghost mid = *k;
    std::mem::swap(&mut k.timers, &mut ts);
    proof {
        lemma_timers_irrelevant(&mid, k);
        assert(k.task_at(p as int, t as int) == mid.task_at(p as int, t as int));
        assert(k1.task_at(p as int, t as int) == old(k).task_at(p as int, t as int));
        assert(mid.task_at(p as int, t as int) == Some(crate::task::TaskControlBlock { status: TaskStatus::Blocked, ..k1.task_at(p as int, t as int).unwrap() }));
    }
    0
}

/// Law: a process's parent pointer names `p` exactly when `p`'s children
/// list holds it.
pub proof fn lemma_parent_iff_child(k: &Kernel, p: usize, c: usize)
    requires
        k.wf(),
    ensures
        k.has_parent(c, p) <==> k.is_child(p, c),
{
}

/// Law: the task holding the hart is `Running`, so never a zombie or
/// blocked, and its process has not exited.
pub proof fn lemma_running_task_live(k: &Kernel)
    requires
        k.wf(),
        k.current.is_some(),
    ensures
        k.has_task(k.current.unwrap().0 as int, k.current.unwrap().1 as int),
        k.status_of(k.current.unwrap().0 as int, k.current.unwrap().1 as int) == TaskStatus::Running,
        !k.proc_at(k.current.unwrap().0 as int).unwrap().is_zombie,
{
}

/// Law: once child `c` of the running process has exited, `waitpid(c)` finds
/// it: it is the first exited child matching `c`, so waiting reaps it and
/// returns its pid and exit code.
pub proof fn lemma_wait_finds_exited_child(k: &Kernel, c: usize)
    requires
        k.wf(),
        k.current.is_some(),
        k.is_child(k.current.unwrap().0, c),
        k.is_zombie_proc(c as int),
        c <= isize::MAX,
    ensures
        exists|idx: int|
            k.first_zombie_match(k.current.unwrap().0 as int, c as isize, idx)
                && k.children_of(k.current.unwrap().0 as int)[idx] == c,
{
    let p = k.current.unwrap().0;
    let kids = k.children_of(p as int);
    let idx = kids.index_of(c);
    assert(k.has_proc(p as int));
    assert forall|j: int| 0 <= j < idx implies !(wait_match(c as isize, #[trigger] kids[j]) && k.is_zombie_proc(kids[j] as int)) by {
        assert(kids[j] != c);
    }
    assert(k.first_zombie_match(p as int, c as isize, idx));
}


/// What `task_info` reports of the running task: its status, its counts of
/// each system call, and the clock in milliseconds that the caller read.
pub fn sys_task_info(k: &Kernel, now_ms: u64) -> (r: TaskInfo)
    requires
        k.wf(),
        k.current.is_some(),
    ensures
        r.status == k.status_of(k.current.unwrap().0 as int, k.current.unwrap().1 as int),
        r.status == TaskStatus::Running,
        r.syscall_times@ == k.task_at(k.current.unwrap().0 as int, k.current.unwrap().1 as int).unwrap().syscall_times@,
        r.time == now_ms,
{
    let (p, t) = k.current.unwrap();
    assert(k.has_task(p as int, t as int));
    let tcb = k.procs[p].as_ref().unwrap().tasks[t].as_ref().unwrap();
    let mut times: Vec<u32> = Vec::new();
    let mut i: usize = 0;
    while i < tcb.syscall_times.len()
        invariant
            i <= tcb.syscall_times@.len(),
            times@ == tcb.syscall_times@.take(i as int),
        decreases tcb.syscall_times@.len() - i,
    {
        times.push(tcb.syscall_times[i]);
        i = i + 1;
        assert(times@ =~= tcb.syscall_times@.take(i as int));
    }
    assert(times@ =~= tcb.syscall_times@);
    TaskInfo { status: tcb.status, syscall_times: times, time: now_ms }
}

} // verus!
