//! Tasks, processes and the scheduler.
use crate::config::{BIG_STRIDE, DEFAULT_PRIORITY};
use crate::id::RecycleAllocator;
use crate::sync::SyncState;
use crate::trap::TrapContext;
use vstd::prelude::*;

verus! {

/// Life-cycle state of a task.
#[derive(Clone, Copy, PartialEq, Eq, Structural, Debug)]
pub enum TaskStatus {
    UnInit,
    Ready,
    Running,
    Blocked,
    Zombie,
}

/// A thread of a process.
pub struct TaskControlBlock {
    pub tid: usize,
    pub status: TaskStatus,
    /// Set once the thread has exited.
    pub exit_code: Option<i32>,
    pub trap_cx: TrapContext,
    pub stride: u64,
    pub priority: u64,
    /// How many times the task made each system call, by call number.
    pub syscall_times: Vec<u32>,
}

/// Number of system-call numbers whose uses are counted.
pub const MAX_SYSCALL_NUM: usize = 500;

impl TaskControlBlock {
    /// A ready thread `tid` whose trap context is `trap_cx`.
    pub fn new(tid: usize, trap_cx: TrapContext) -> (r: Self)
        ensures
            r.tid == tid,
            r.status == TaskStatus::Ready,
            r.exit_code.is_none(),
            r.trap_cx == trap_cx,
            r.stride == 0,
            r.priority == DEFAULT_PRIORITY,
            r.syscall_times@ == Seq::new(MAX_SYSCALL_NUM as nat, |i: int| 0u32),
    {
        let mut syscall_times: Vec<u32> = Vec::new();
        let mut i: usize = 0;
        while i < MAX_SYSCALL_NUM
            invariant
                i <= MAX_SYSCALL_NUM,
                syscall_times@ == Seq::new(i as nat, |j: int| 0u32),
            decreases MAX_SYSCALL_NUM - i,
        {
            syscall_times.push(0);
            i = i + 1;
            assert(syscall_times@ =~= Seq::new(i as nat, |j: int| 0u32));
        }
        Self {
            syscall_times,
            tid,
            status: TaskStatus::Ready,
            exit_code: None,
            trap_cx,
            stride: 0,
            priority: DEFAULT_PRIORITY,
        }
    }
}

/// A process: its threads, its children and its exit state.
pub struct ProcessControlBlock {
    pub pid: usize,
    pub parent: Option<usize>,
    pub children: Vec<usize>,
    pub is_zombie: bool,
    pub exit_code: i32,
    /// Threads by thread id; a reaped thread leaves `None`.
    pub tasks: Vec<Option<TaskControlBlock>>,
    pub sync: SyncState,
}

/// The whole kernel state: processes by pid, the ready queue and the task
/// that holds the hart.
pub struct Kernel {
    pub procs: Vec<Option<ProcessControlBlock>>,
    pub pids: RecycleAllocator,
    /// FIFO of `(pid, tid)` pairs waiting for the hart.
    pub ready: Vec<(usize, usize)>,
    pub current: Option<(usize, usize)>,
    /// Sleeping tasks: `(expiry in ms, pid, tid)`.
    pub timers: Vec<(u64, usize, usize)>,
}

/// Two records of one process agree on id, family, zombie state and thread slots.
pub open spec fn same_links(a: ProcessControlBlock, b: ProcessControlBlock) -> bool {
    &&& a.pid == b.pid
    &&& a.parent == b.parent
    &&& a.children == b.children
    &&& a.is_zombie == b.is_zombie
    &&& a.tasks@.len() == b.tasks@.len()
    &&& a.sync.wf() == b.sync.wf()
}

/// Two records of one process agree on everything but the thread table.
pub open spec fn same_links_but_tasks(a: ProcessControlBlock, b: ProcessControlBlock) -> bool {
    &&& a.pid == b.pid
    &&& a.parent == b.parent
    &&& a.children == b.children
    &&& a.is_zombie == b.is_zombie
    &&& a.exit_code == b.exit_code
    &&& a.sync == b.sync
}

/// The stride of `t` after one dispatch: `BIG_STRIDE / priority` more,
/// held at the largest value.
pub open spec fn charged(t: TaskControlBlock) -> u64 {
    if t.stride + BIG_STRIDE / t.priority > u64::MAX {
        u64::MAX
    } else {
        (t.stride + BIG_STRIDE / t.priority) as u64
    }
}

/// Pid of the init process, which adopts orphans.
pub const INIT_PID: usize = 0;

impl Kernel {
    pub open spec fn proc_at(&self, pid: int) -> Option<ProcessControlBlock> {
        if 0 <= pid < self.procs@.len() {
            self.procs@[pid]
        } else {
            None
        }
    }

    pub open spec fn has_proc(&self, pid: int) -> bool {
        self.proc_at(pid).is_some()
    }

    pub open spec fn task_at(&self, pid: int, tid: int) -> Option<TaskControlBlock> {
        match self.proc_at(pid) {
            Some(p) => if 0 <= tid < p.tasks@.len() {
                p.tasks@[tid]
            } else {
                None
            },
            None => None,
        }
    }

    pub open spec fn has_task(&self, pid: int, tid: int) -> bool {
        self.task_at(pid, tid).is_some()
    }

    pub open spec fn status_of(&self, pid: int, tid: int) -> TaskStatus {
        self.task_at(pid, tid).unwrap().status
    }

    /// `c` names `p` as its parent.
    pub open spec fn has_parent(&self, c: usize, p: usize) -> bool {
        self.has_proc(c as int) && self.proc_at(c as int).unwrap().parent == Some(p)
    }

    /// `p` lists `c` among its children.
    pub open spec fn is_child(&self, p: usize, c: usize) -> bool {
        self.has_proc(p as int) && self.proc_at(p as int).unwrap().children@.contains(c)
    }

    /// A process is its parent's child exactly when the parent lists it.
    pub open spec fn tree_consistent(&self) -> bool {
        forall|p: usize, c: usize|
            #![trigger self.has_parent(c, p)]
            #![trigger self.is_child(p, c)]
            self.has_parent(c, p) <==> self.is_child(p, c)
    }

    /// The running task is `Running`; every queued task exists and is `Ready`.
    pub open spec fn sched_consistent(&self) -> bool {
        &&& (self.current matches Some(cur) ==> self.has_task(cur.0 as int, cur.1 as int)
            && self.status_of(cur.0 as int, cur.1 as int) == TaskStatus::Running)
        &&& forall|k: int|
            0 <= k < self.ready@.len() ==> self.has_task(
                #[trigger] self.ready@[k].0 as int,
                self.ready@[k].1 as int,
            ) && self.status_of(self.ready@[k].0 as int, self.ready@[k].1 as int)
                == TaskStatus::Ready
        &&& self.ready@.no_duplicates()
        &&& (self.current matches Some(cur) ==> !self.proc_at(cur.0 as int).unwrap().is_zombie)
        &&& forall|k: int|
            0 <= k < self.ready@.len() ==> !self.proc_at(#[trigger] self.ready@[k].0 as int).unwrap().is_zombie
        &&& forall|q: int, t: int|
            #[trigger] self.has_task(q, t) ==> self.task_at(q, t).unwrap().priority >= 1
    }

    pub open spec fn wf(&self) -> bool {
        &&& self.has_proc(INIT_PID as int)
        &&& self.proc_at(INIT_PID as int).unwrap().parent.is_none()
        &&& !self.proc_at(INIT_PID as int).unwrap().is_zombie
        &&& forall|pid: int| #[trigger]
            self.has_proc(pid) ==> {
                let p = self.proc_at(pid).unwrap();
                &&& p.pid == pid
                &&& p.parent != Some(pid as usize)
                &&& p.children@.no_duplicates()
                &&& p.is_zombie ==> p.children@.len() == 0
                &&& p.sync.wf()
                &&& p.tasks@.len() < isize::MAX
                &&& forall|t: int|
                    0 <= t < p.tasks@.len() && (#[trigger] p.tasks@[t]).is_some() ==> p.tasks@[t].unwrap().tid == t
            }
        &&& self.pids.wf()
        &&& forall|id: usize| #[trigger] self.pids.live().contains(id) <==> self.has_proc(id as int)
        &&& self.pids.spec_current() <= self.procs@.len()
        &&& self.procs@.len() < isize::MAX
        &&& self.tree_consistent()
        &&& self.sched_consistent()
    }
}


impl Kernel {
    /// `other` has the same processes, family links and task slots as `self`;
    /// task fields other than the thread id may differ.
    pub open spec fn same_shape(&self, other: &Kernel) -> bool {
        &&& self.pids == other.pids
        &&& self.procs@.len() == other.procs@.len()
        &&& forall|q: int| #[trigger] other.has_proc(q) == self.has_proc(q)
        &&& forall|q: int|
            #[trigger] other.has_proc(q) ==> same_links(
                other.proc_at(q).unwrap(),
                self.proc_at(q).unwrap(),
            )
        &&& forall|q: int, t: int| #[trigger] other.has_task(q, t) == self.has_task(q, t)
        &&& forall|q: int, t: int|
            #[trigger] other.has_task(q, t) ==> other.task_at(q, t).unwrap().tid == self.task_at(
                q,
                t,
            ).unwrap().tid
    }

    pub proof fn lemma_same_shape_trans(&self, b: &Kernel, c: &Kernel)
        requires
            self.same_shape(b),
            b.same_shape(c),
        ensures
            self.same_shape(c),
    {
        assert forall|q: int| #[trigger] c.has_proc(q) implies same_links(
            c.proc_at(q).unwrap(),
            self.proc_at(q).unwrap(),
        ) by {
            assert(b.has_proc(q));
        }
        assert forall|q: int, t: int| #[trigger] c.has_task(q, t) implies c.task_at(q, t).unwrap().tid == self.task_at(q, t).unwrap().tid by {
            assert(b.has_task(q, t));
        }
    }

    /// `a.same_shape(self)` and `self.same_shape(c)` give `a.same_shape(c)`.
    pub proof fn lemma_same_shape_trans_from(&self, a: Kernel, c: &Kernel)
        requires
            a.same_shape(self),
            self.same_shape(c),
        ensures
            a.same_shape(c),
    {
        a.lemma_same_shape_trans(self, c);
    }

    /// Same processes and pid allocator: same shape.
    pub proof fn lemma_same_procs_shape(&self, other: &Kernel)
        requires
            self.procs == other.procs,
            self.pids == other.pids,
        ensures
            self.same_shape(other),
    {
        assert forall|q: int| #[trigger] other.has_proc(q) == self.has_proc(q) by {}
        assert forall|q: int, t: int| #[trigger] other.has_task(q, t) == self.has_task(q, t) by {}
        assert forall|q: int, t: int| #[trigger] other.task_at(q, t) == self.task_at(q, t) by {}
    }

    pub proof fn lemma_same_shape_wf(&self, other: &Kernel)
        requires
            self.wf(),
            self.same_shape(other),
            other.sched_consistent(),
        ensures
            other.wf(),
    {
        assert forall|id: usize| #[trigger] other.pids.live().contains(id) <==> other.has_proc(id as int) by {
            assert(self.pids.live().contains(id) <==> self.has_proc(id as int));
        }
        assert forall|pid: int| #[trigger] other.has_proc(pid) implies {
            let p = other.proc_at(pid).unwrap();
            &&& p.pid == pid
            &&& p.children@.no_duplicates()
            &&& forall|t: int|
                0 <= t < p.tasks@.len() && (#[trigger] p.tasks@[t]).is_some() ==> p.tasks@[t].unwrap().tid == t
        } by {
            assert(self.has_proc(pid));
            let p = other.proc_at(pid).unwrap();
            let op = self.proc_at(pid).unwrap();
            assert forall|t: int| 0 <= t < p.tasks@.len() && (#[trigger] p.tasks@[t]).is_some() implies p.tasks@[t].unwrap().tid == t by {
                assert(other.has_task(pid, t));
                assert(self.has_task(pid, t));
                assert(op.tasks@[t].is_some());
            }
        }
        assert forall|a: usize, c: usize| other.has_parent(c, a) <==> other.is_child(a, c) by {
            assert(other.has_parent(c, a) == self.has_parent(c, a));
            if other.has_proc(a as int) {
                assert(other.proc_at(a as int).unwrap().children == self.proc_at(a as int).unwrap().children);
            }
            assert(other.is_child(a, c) == self.is_child(a, c));
        }
        assert(other.has_proc(INIT_PID as int));
    }
}

/// Takes the value out of slot `i`, leaving `None`.
pub fn take_slot<T>(v: &mut Vec<Option<T>>, i: usize) -> (r: Option<T>)
    requires
        i < old(v)@.len(),
    ensures
        r == old(v)@[i as int],
        final(v)@ == old(v)@.update(i as int, None),
{
    let mut tmp: Option<T> = None;
    std::mem::swap(&mut v[i], &mut tmp);
    tmp
}

impl Kernel {
    /// A kernel whose only process is init (pid 0), its main thread ready.
    pub fn new() -> (k: Self)
        ensures
            k.wf(),
            k.current.is_none(),
            k.ready@ == seq![(INIT_PID, 0usize)],
            k.procs@.len() == 1,
            k.has_task(INIT_PID as int, 0),
            k.proc_at(INIT_PID as int).unwrap().children@.len() == 0,
    {
        let mut pids = RecycleAllocator::new();
        let pid = pids.allocate();
        let cx = TrapContext::app_init_context(0, 0, 0, 0, 0);
        let mut tasks: Vec<Option<TaskControlBlock>> = Vec::new();
        tasks.push(Some(TaskControlBlock::new(0, cx)));
        let init = ProcessControlBlock {
            pid,
            parent: None,
            children: Vec::new(),
            is_zombie: false,
            exit_code: 0,
            tasks,
            sync: SyncState::new(),
        };
        let mut procs: Vec<Option<ProcessControlBlock>> = Vec::new();
        procs.push(Some(init));
        let mut ready: Vec<(usize, usize)> = Vec::new();
        ready.push((pid, 0));
        let k = Kernel { procs, pids, ready, current: None, timers: Vec::new() };
        assert(k.ready@ =~= seq![(INIT_PID, 0usize)]);
        assert(k.tree_consistent()) by {
            assert forall|p: usize, c: usize| k.has_parent(c, p) <==> k.is_child(p, c) by {
                if k.is_child(p, c) {
                    assert(p == 0);
                }
            }
        }
        k
    }

    /// Replaces the status of task `(pid, tid)`; nothing else changes.
    pub(crate) fn set_status(&mut self, pid: usize, tid: usize, st: TaskStatus)
        requires
            old(self).has_task(pid as int, tid as int),
        ensures
            forall|q: int| q != pid ==> #[trigger] final(self).proc_at(q) == old(self).proc_at(q),
            old(self).same_shape(final(self)),
            forall|q: int| #[trigger] final(self).has_proc(q) ==> final(self).proc_at(q).unwrap().sync == old(self).proc_at(q).unwrap().sync,
            final(self).ready == old(self).ready,
            final(self).current == old(self).current,
            forall|q: int|
                #[trigger] final(self).proc_at(q) matches Some(np) ==> {
                    let op = old(self).proc_at(q).unwrap();
                    &&& np.is_zombie == op.is_zombie
                    &&& np.exit_code == op.exit_code
                },
            forall|q: int, t: int|
                #[trigger] final(self).task_at(q, t) == if q == pid && t == tid {
                    Some(TaskControlBlock { status: st, ..old(self).task_at(q, t).unwrap() })
                } else {
                    old(self).task_at(q, t)
                },
    {
        let mut p = take_slot(&mut self.procs, pid).unwrap();
        let mut t = take_slot(&mut p.tasks, tid).unwrap();
        t.status = st;
        p.tasks.set(tid, Some(t));
        self.procs.set(pid, Some(p));
        assert forall|q: int| #[trigger] self.has_proc(q) implies self.proc_at(q).unwrap().sync == old(self).proc_at(q).unwrap().sync by {}
        assert forall|q: int| q != pid implies #[trigger] self.proc_at(q) == old(self).proc_at(q) by {}
        assert forall|q: int, t: int| #[trigger] self.has_task(q, t) == old(self).has_task(q, t) by {}
        assert forall|q: int, t: int|
            #[trigger] self.task_at(q, t) == if q == pid && t == tid {
                Some(TaskControlBlock { status: st, ..old(self).task_at(q, t).unwrap() })
            } else {
                old(self).task_at(q, t)
            } by {}
    }

    /// Makes a task that is neither ready nor running ready, at the back of
    /// the ready queue.
    pub fn add_task(&mut self, pid: usize, tid: usize)
        requires
            old(self).wf(),
            old(self).has_task(pid as int, tid as int),
            old(self).status_of(pid as int, tid as int) != TaskStatus::Ready,
            old(self).current != Some((pid, tid)),
            !old(self).proc_at(pid as int).unwrap().is_zombie,
        ensures
            forall|q: int| q != pid ==> #[trigger] final(self).proc_at(q) == old(self).proc_at(q),
            final(self).wf(),
            old(self).same_shape(final(self)),
            forall|q: int| #[trigger] final(self).has_proc(q) ==> final(self).proc_at(q).unwrap().sync == old(self).proc_at(q).unwrap().sync,
            final(self).ready@ == old(self).ready@.push((pid, tid)),
            final(self).current == old(self).current,
            forall|q: int|
                #[trigger] final(self).proc_at(q) matches Some(np) ==> {
                    let op = old(self).proc_at(q).unwrap();
                    &&& np.is_zombie == op.is_zombie
                    &&& np.exit_code == op.exit_code
                },
            forall|q: int, t: int|
                #[trigger] final(self).task_at(q, t) == if q == pid && t == tid {
                    Some(TaskControlBlock { status: TaskStatus::Ready, ..old(self).task_at(q, t).unwrap() })
                } else {
                    old(self).task_at(q, t)
                },
    {
        proof {
            if old(self).ready@.contains((pid, tid)) {
                let k = old(self).ready@.index_of((pid, tid));
                assert(old(self).has_task(old(self).ready@[k].0 as int, old(self).ready@[k].1 as int));
            }
        }
        self.set_status(pid, tid, TaskStatus::Ready);
        let ghost mid = *self;
        self.ready.push((pid, tid));
        proof {
            assert forall|q: int| #[trigger] self.has_proc(q) implies self.proc_at(q).unwrap().sync == old(self).proc_at(q).unwrap().sync by {
                assert(mid.has_proc(q));
            }
            assert forall|q: int| q != pid implies #[trigger] self.proc_at(q) == old(self).proc_at(q) by {
                assert(mid.proc_at(q) == old(self).proc_at(q));
            }
            assert forall|q: int, t: int| #[trigger] self.task_at(q, t) == mid.task_at(q, t) by {}
            assert forall|q: int| #[trigger] self.proc_at(q) == mid.proc_at(q) by {}
            assert forall|q: int| #[trigger] self.has_proc(q) == mid.has_proc(q) by {}
            assert forall|q: int, t: int| #[trigger] self.has_task(q, t) == mid.has_task(q, t) by {}
            assert forall|k: int|
                0 <= k < self.ready@.len() implies self.has_task(
                    #[trigger] self.ready@[k].0 as int,
                    self.ready@[k].1 as int,
                ) && self.status_of(self.ready@[k].0 as int, self.ready@[k].1 as int)
                    == TaskStatus::Ready by {
                let x = self.ready@[k];
                assert(self.task_at(x.0 as int, x.1 as int) == if x.0 == pid && x.1 == tid {
                    Some(TaskControlBlock { status: TaskStatus::Ready, ..old(self).task_at(x.0 as int, x.1 as int).unwrap() })
                } else {
                    old(self).task_at(x.0 as int, x.1 as int)
                });
                assert(self.proc_at(x.0 as int) == mid.proc_at(x.0 as int));
                if k < old(self).ready@.len() {
                    assert(x == old(self).ready@[k]);
                    assert(old(self).has_task(old(self).ready@[k].0 as int, old(self).ready@[k].1 as int));
                    assert(!old(self).proc_at(old(self).ready@[k].0 as int).unwrap().is_zombie);
                } else {
                    assert(x == (pid, tid));
                }
                assert(old(self).has_proc(x.0 as int));
                assert(self.proc_at(x.0 as int).unwrap().is_zombie == old(self).proc_at(x.0 as int).unwrap().is_zombie);
            }
            assert forall|q: int, t: int|
                #[trigger] self.has_task(q, t) implies self.task_at(q, t).unwrap().priority >= 1 by {
                assert(old(self).has_task(q, t));
                assert(self.task_at(q, t) == if q == pid && t == tid {
                    Some(TaskControlBlock { status: TaskStatus::Ready, ..old(self).task_at(q, t).unwrap() })
                } else {
                    old(self).task_at(q, t)
                });
            }
            assert(self.ready@.no_duplicates()) by {
                assert forall|i: int, j: int| 0 <= i < j < self.ready@.len() implies self.ready@[i] != self.ready@[j] by {
                    if j == old(self).ready@.len() {
                        assert(old(self).ready@.contains(self.ready@[i]));
                    }
                }
            }
            if let Some(cur) = self.current {
                assert(cur != (pid, tid));
                assert(old(self).has_task(cur.0 as int, cur.1 as int));
                assert(self.proc_at(cur.0 as int) == mid.proc_at(cur.0 as int));
                assert(self.proc_at(cur.0 as int).unwrap().is_zombie == old(self).proc_at(cur.0 as int).unwrap().is_zombie);
                assert(self.task_at(cur.0 as int, cur.1 as int) == old(self).task_at(cur.0 as int, cur.1 as int));
            }
            assert(self.sched_consistent());
            assert(old(self).same_shape(self));
            old(self).lemma_same_shape_wf(self);
        }
    }

    pub open spec fn stride_of(&self, e: (usize, usize)) -> u64 {
        self.task_at(e.0 as int, e.1 as int).unwrap().stride
    }

    /// Index of the queued task with the smallest stride, the earliest of equals.
    pub open spec fn is_stride_pick(&self, idx: int) -> bool {
        &&& 0 <= idx < self.ready@.len()
        &&& forall|k: int|
            0 <= k < self.ready@.len() ==> self.stride_of(self.ready@[idx]) <= self.stride_of(
                #[trigger] self.ready@[k],
            )
        &&& forall|k: int|
            0 <= k < idx ==> self.stride_of(self.ready@[idx]) < self.stride_of(
                #[trigger] self.ready@[k],
            )
    }

    /// Position of the stride scheduler's pick in a non-empty ready queue.
    fn stride_pick(&self) -> (idx: usize)
        requires
            self.wf(),
            self.ready@.len() > 0,
        ensures
            self.is_stride_pick(idx as int),
    {
        let mut best: usize = 0;
        let (p0, t0) = self.ready[0];
        let mut best_stride = self.procs[p0].as_ref().unwrap().tasks[t0].as_ref().unwrap().stride;
        let mut k: usize = 1;
        while k < self.ready.len()
            invariant
                self.wf(),
                1 <= k <= self.ready@.len(),
                best < k,
                best_stride == self.stride_of(self.ready@[best as int]),
                forall|j: int| 0 <= j < k ==> best_stride <= self.stride_of(#[trigger] self.ready@[j]),
                forall|j: int| 0 <= j < best ==> best_stride < self.stride_of(#[trigger] self.ready@[j]),
            decreases self.ready@.len() - k,
        {
            let (p, t) = self.ready[k];
            assert(self.has_task(self.ready@[k as int].0 as int, self.ready@[k as int].1 as int));
            let s = self.procs[p].as_ref().unwrap().tasks[t].as_ref().unwrap().stride;
            if s < best_stride {
                best = k;
                best_stride = s;
            }
            k = k + 1;
        }
        best
    }

    /// Takes the stride scheduler's pick off the ready queue and charges it
    /// `BIG_STRIDE / priority`. `None` when the queue is empty.
    pub fn fetch_task(&mut self) -> (r: Option<(usize, usize)>)
        requires
            old(self).wf(),
            old(self).current.is_none(),
        ensures
            final(self).wf(),
            final(self).current.is_none(),
            old(self).same_shape(final(self)),
            old(self).ready@.len() == 0 <==> r.is_none(),
            r matches Some(e) ==> exists|idx: int|
                old(self).is_stride_pick(idx) && e == old(self).ready@[idx]
                    && final(self).ready@ == old(self).ready@.remove(idx)
                    && final(self).has_task(e.0 as int, e.1 as int)
                    && final(self).status_of(e.0 as int, e.1 as int) == TaskStatus::Ready,
            r matches Some(e) ==> final(self).task_at(e.0 as int, e.1 as int) == Some(TaskControlBlock {
                stride: charged(old(self).task_at(e.0 as int, e.1 as int).unwrap()),
                ..old(self).task_at(e.0 as int, e.1 as int).unwrap()
            }),
            r matches Some(e) ==> forall|q: int, u: int| !(q == e.0 && u == e.1) ==> #[trigger] final(self).task_at(q, u) == old(self).task_at(q, u),
    {
        if self.ready.len() == 0 {
            assert(old(self).same_shape(self));
            return None;
        }
        let idx = self.stride_pick();
        let e = self.ready.remove(idx);
        let (pid, tid) = e;
        assert(self.has_task(pid as int, tid as int));
        let mut p = take_slot(&mut self.procs, pid).unwrap();
        let mut t = take_slot(&mut p.tasks, tid).unwrap();
        let pass = BIG_STRIDE / t.priority;
        t.stride = t.stride.saturating_add(pass);
        p.tasks.set(tid, Some(t));
        self.procs.set(pid, Some(p));
        proof {
            assert forall|q: int, u: int| !(q == pid && u == tid) implies #[trigger] self.task_at(q, u) == old(self).task_at(q, u) by {}
            assert forall|q: int, u: int| #[trigger] self.has_task(q, u) == old(self).has_task(q, u) by {}
            assert forall|q: int, u: int| #[trigger] self.has_task(q, u) implies self.status_of(q, u) == old(self).status_of(q, u) by {}
            assert forall|k: int| 0 <= k < self.ready@.len() implies self.has_task(
                #[trigger] self.ready@[k].0 as int, self.ready@[k].1 as int) && self.status_of(self.ready@[k].0 as int, self.ready@[k].1 as int) == TaskStatus::Ready by {
                let j = if k < idx { k } else { k + 1 };
                assert(self.ready@[k] == old(self).ready@[j]);
            }
            assert(old(self).same_shape(self));
            old(self).lemma_same_shape_wf(self);
        }
        Some(e)
    }
}


impl Kernel {
    /// Dispatches the stride scheduler's pick: it becomes the running task.
    /// `None` when nothing is ready.
    pub fn run_next(&mut self) -> (r: Option<(usize, usize)>)
        requires
            old(self).wf(),
            old(self).current.is_none(),
        ensures
            final(self).wf(),
            final(self).current == r,
            old(self).ready@.len() == 0 <==> r.is_none(),
            r matches Some(e) ==> exists|idx: int|
                old(self).is_stride_pick(idx) && e == old(self).ready@[idx]
                    && final(self).ready@ == old(self).ready@.remove(idx),
            r matches Some(e) ==> final(self).status_of(e.0 as int, e.1 as int) == TaskStatus::Running,
            r matches Some(e) ==> final(self).task_at(e.0 as int, e.1 as int).unwrap().stride == charged(old(self).task_at(e.0 as int, e.1 as int).unwrap()),
    {
        let r = self.fetch_task();
        match r {
            Some(e) => {
                let ghost mid = *self;
                let ghost idx = choose|idx: int|
                    old(self).is_stride_pick(idx) && e == old(self).ready@[idx]
                        && mid.ready@ == old(self).ready@.remove(idx);
                self.set_status(e.0, e.1, TaskStatus::Running);
                let ghost mid2 = *self;
                self.current = Some(e);
                proof {
                    assert forall|q: int, t: int| #[trigger] self.task_at(q, t) == mid2.task_at(q, t) by {}
                    assert forall|q: int| #[trigger] self.proc_at(q) == mid2.proc_at(q) by {}
                    assert forall|q: int| #[trigger] self.has_proc(q) == mid2.has_proc(q) by {}
                    assert forall|q: int, t: int| #[trigger] self.has_task(q, t) == mid2.has_task(q, t) by {}
                    assert(mid.same_shape(self));
                    assert forall|k: int|
                        0 <= k < self.ready@.len() implies self.has_task(
                            #[trigger] self.ready@[k].0 as int,
                            self.ready@[k].1 as int,
                        ) && self.status_of(self.ready@[k].0 as int, self.ready@[k].1 as int)
                            == TaskStatus::Ready by {
                        let x = self.ready@[k];
                        assert(mid.has_task(x.0 as int, x.1 as int));
                        let j = if k < idx { k } else { k + 1 };
                        assert(x == old(self).ready@[j]);
                        assert(x != e);
                        assert(self.task_at(x.0 as int, x.1 as int) == mid.task_at(x.0 as int, x.1 as int));
                        assert(self.proc_at(x.0 as int) == mid2.proc_at(x.0 as int));
                        assert(mid.has_proc(x.0 as int));
                        assert(self.proc_at(x.0 as int).unwrap().is_zombie == mid.proc_at(x.0 as int).unwrap().is_zombie);
                    }
                    assert forall|q: int, t: int|
                        #[trigger] self.has_task(q, t) implies self.task_at(q, t).unwrap().priority >= 1 by {
                        assert(mid.has_task(q, t));
                    }
                    assert(self.proc_at(e.0 as int) == mid2.proc_at(e.0 as int));
                    assert(mid.has_proc(e.0 as int));
                    assert(!old(self).proc_at(old(self).ready@[idx].0 as int).unwrap().is_zombie);
                    assert(mid.has_task(e.0 as int, e.1 as int));
                    assert(old(self).has_proc(e.0 as int));
                    assert(mid.proc_at(e.0 as int).unwrap().is_zombie == old(self).proc_at(e.0 as int).unwrap().is_zombie);
                    assert(mid2.proc_at(e.0 as int) matches Some(np) ==> np.is_zombie == mid.proc_at(e.0 as int).unwrap().is_zombie);
                    assert(mid.ready@.len() + 1 == old(self).ready@.len());
                    mid.lemma_same_shape_wf(self);
                }
                Some(e)
            },
            None => None,
        }
    }
}


impl Kernel {
    /// A task that is neither queued nor running becomes a zombie; `code`,
    /// when given, is recorded as its exit code.
    pub fn finish_task(&mut self, pid: usize, tid: usize, code: Option<i32>)
        requires
            old(self).wf(),
            old(self).has_task(pid as int, tid as int),
            !old(self).ready@.contains((pid, tid)),
            old(self).current != Some((pid, tid)),
        ensures
            final(self).wf(),
            old(self).same_shape(final(self)),
            final(self).ready == old(self).ready,
            final(self).current == old(self).current,
            forall|q: int|
                #[trigger] final(self).proc_at(q) matches Some(np) ==> np.exit_code == old(self).proc_at(q).unwrap().exit_code,
            forall|q: int, t: int|
                #[trigger] final(self).task_at(q, t) == if q == pid && t == tid {
                    Some(TaskControlBlock {
                        status: TaskStatus::Zombie,
                        exit_code: if code.is_some() { code } else { old(self).task_at(q, t).unwrap().exit_code },
                        ..old(self).task_at(q, t).unwrap()
                    })
                } else {
                    old(self).task_at(q, t)
                },
    {
        let mut p = take_slot(&mut self.procs, pid).unwrap();
        let mut t = take_slot(&mut p.tasks, tid).unwrap();
        t.status = TaskStatus::Zombie;
        if code.is_some() {
            t.exit_code = code;
        }
        p.tasks.set(tid, Some(t));
        self.procs.set(pid, Some(p));
        proof {
            assert forall|q: int, u: int| #[trigger] self.has_task(q, u) == old(self).has_task(q, u) by {}
            assert forall|q: int, u: int|
                #[trigger] self.task_at(q, u) == if q == pid && u == tid {
                    Some(TaskControlBlock {
                        status: TaskStatus::Zombie,
                        exit_code: if code.is_some() { code } else { old(self).task_at(q, u).unwrap().exit_code },
                        ..old(self).task_at(q, u).unwrap()
                    })
                } else {
                    old(self).task_at(q, u)
                } by {}
            assert(old(self).same_shape(self));
            assert forall|k: int|
                0 <= k < self.ready@.len() implies self.has_task(
                    #[trigger] self.ready@[k].0 as int,
                    self.ready@[k].1 as int,
                ) && self.status_of(self.ready@[k].0 as int, self.ready@[k].1 as int)
                    == TaskStatus::Ready && !self.proc_at(self.ready@[k].0 as int).unwrap().is_zombie by {
                let x = self.ready@[k];
                assert(old(self).has_task(x.0 as int, x.1 as int));
                assert(old(self).has_proc(x.0 as int));
                assert(old(self).ready@.contains(x));
                assert(x != (pid, tid));
            }
            if let Some(cur) = self.current {
                assert(old(self).has_task(cur.0 as int, cur.1 as int));
                assert(old(self).has_proc(cur.0 as int));
            }
            assert forall|q: int, u: int|
                #[trigger] self.has_task(q, u) implies self.task_at(q, u).unwrap().priority >= 1 by {
                assert(old(self).has_task(q, u));
            }
            old(self).lemma_same_shape_wf(self);
        }
    }
}


impl Kernel {
    /// Exchanges the synchronization state of process `pid` with `s`.
    pub fn swap_sync(&mut self, pid: usize, s: &mut SyncState)
        requires
            old(self).wf(),
            old(self).has_proc(pid as int),
            old(s).wf(),
        ensures
            final(self).wf(),
            old(self).same_shape(final(self)),
            final(self).ready == old(self).ready,
            final(self).current == old(self).current,
            *final(s) == old(self).proc_at(pid as int).unwrap().sync,
            final(s).wf(),
            final(self).proc_at(pid as int).unwrap().sync == *old(s),
            forall|q: int| #[trigger] final(self).proc_at(q) matches Some(np) ==> np.exit_code == old(self).proc_at(q).unwrap().exit_code,
            forall|q: int| q != pid ==> #[trigger] final(self).proc_at(q) == old(self).proc_at(q),
            forall|q: int, t: int| #[trigger] final(self).task_at(q, t) == old(self).task_at(q, t),
    {
        let mut p = take_slot(&mut self.procs, pid).unwrap();
        std::mem::swap(&mut p.sync, s);
        self.procs.set(pid, Some(p));
        proof {
            assert forall|q: int| q != pid implies #[trigger] self.proc_at(q) == old(self).proc_at(q) by {}
            assert forall|q: int, t: int| #[trigger] self.task_at(q, t) == old(self).task_at(q, t) by {}
            assert forall|q: int, t: int| #[trigger] self.has_task(q, t) == old(self).has_task(q, t) by {}
            assert forall|q: int| #[trigger] self.has_proc(q) == old(self).has_proc(q) by {}
            assert(old(self).same_shape(self));
            assert forall|k: int|
                0 <= k < self.ready@.len() implies self.has_task(
                    #[trigger] self.ready@[k].0 as int,
                    self.ready@[k].1 as int,
                ) && self.status_of(self.ready@[k].0 as int, self.ready@[k].1 as int)
                    == TaskStatus::Ready && !self.proc_at(self.ready@[k].0 as int).unwrap().is_zombie by {
                let x = self.ready@[k];
                assert(old(self).has_task(x.0 as int, x.1 as int));
                assert(old(self).has_proc(x.0 as int));
            }
            if let Some(cur) = self.current {
                assert(old(self).has_task(cur.0 as int, cur.1 as int));
                assert(old(self).has_proc(cur.0 as int));
            }
            assert forall|q: int, t: int|
                #[trigger] self.has_task(q, t) implies self.task_at(q, t).unwrap().priority >= 1 by {
                assert(old(self).has_task(q, t));
            }
            old(self).lemma_same_shape_wf(self);
        }
    }
}


impl Kernel {
    /// Status of task `(pid, tid)`, if it exists.
    pub fn task_status(&self, pid: usize, tid: usize) -> (r: Option<TaskStatus>)
        ensures
            r == if self.has_task(pid as int, tid as int) {
                Some(self.status_of(pid as int, tid as int))
            } else {
                None
            },
    {
        if pid < self.procs.len() {
            match &self.procs[pid] {
                Some(p) => {
                    if tid < p.tasks.len() {
                        match &p.tasks[tid] {
                            Some(t) => Some(t.status),
                            None => None,
                        }
                    } else {
                        None
                    }
                },
                None => None,
            }
        } else {
            None
        }
    }

    /// Sets the priority of an existing task.
    pub fn set_priority(&mut self, pid: usize, tid: usize, prio: u64)
        requires
            old(self).wf(),
            old(self).has_task(pid as int, tid as int),
            prio >= 1,
        ensures
            final(self).wf(),
            old(self).same_shape(final(self)),
            final(self).ready == old(self).ready,
            final(self).current == old(self).current,
            forall|q: int, t: int|
                #[trigger] final(self).task_at(q, t) == if q == pid && t == tid {
                    Some(TaskControlBlock { priority: prio, ..old(self).task_at(q, t).unwrap() })
                } else {
                    old(self).task_at(q, t)
                },
    {
        let mut p = take_slot(&mut self.procs, pid).unwrap();
        let mut t = take_slot(&mut p.tasks, tid).unwrap();
        t.priority = prio;
        p.tasks.set(tid, Some(t));
        self.procs.set(pid, Some(p));
        proof {
            assert forall|q: int, u: int| #[trigger] self.has_task(q, u) == old(self).has_task(q, u) by {}
            assert forall|q: int, u: int|
                #[trigger] self.task_at(q, u) == if q == pid && u == tid {
                    Some(TaskControlBlock { priority: prio, ..old(self).task_at(q, u).unwrap() })
                } else {
                    old(self).task_at(q, u)
                } by {}
            assert(old(self).same_shape(self));
            assert forall|k: int|
                0 <= k < self.ready@.len() implies self.has_task(
                    #[trigger] self.ready@[k].0 as int,
                    self.ready@[k].1 as int,
                ) && self.status_of(self.ready@[k].0 as int, self.ready@[k].1 as int)
                    == TaskStatus::Ready && !self.proc_at(self.ready@[k].0 as int).unwrap().is_zombie by {
                let x = self.ready@[k];
                assert(old(self).has_task(x.0 as int, x.1 as int));
                assert(old(self).has_proc(x.0 as int));
            }
            if let Some(cur) = self.current {
                assert(old(self).has_task(cur.0 as int, cur.1 as int));
                assert(old(self).has_proc(cur.0 as int));
            }
            assert forall|q: int, u: int|
                #[trigger] self.has_task(q, u) implies self.task_at(q, u).unwrap().priority >= 1 by {
                assert(old(self).has_task(q, u));
            }
            old(self).lemma_same_shape_wf(self);
        }
    }

    /// Puts a new thread in slot `tid` of process `pid`, growing the slot
    /// table with empty slots as needed. The thread starts `UnInit`.
    pub fn insert_task(&mut self, pid: usize, tcb: TaskControlBlock)
        requires
            old(self).wf(),
            old(self).has_proc(pid as int),
            !old(self).has_task(pid as int, tcb.tid as int),
            tcb.status == TaskStatus::UnInit,
            tcb.priority >= 1,
            tcb.tid + 1 < isize::MAX,
        ensures
            forall|q: int| q != pid ==> #[trigger] final(self).proc_at(q) == old(self).proc_at(q),
            final(self).wf(),
            final(self).ready == old(self).ready,
            final(self).current == old(self).current,
            final(self).task_at(pid as int, tcb.tid as int) == Some(tcb),
            forall|q: int, t: int| !(q == pid && t == tcb.tid) ==> #[trigger] final(self).task_at(q, t) == old(self).task_at(q, t),
            forall|q: int| #[trigger] final(self).has_proc(q) == old(self).has_proc(q),
            forall|q: int| #[trigger] final(self).has_proc(q) ==> same_links_but_tasks(final(self).proc_at(q).unwrap(), old(self).proc_at(q).unwrap()),
    {
        let tid = tcb.tid;
        let mut p = take_slot(&mut self.procs, pid).unwrap();
        while p.tasks.len() <= tid
            invariant
                forall|t: int| 0 <= t < old(self).proc_at(pid as int).unwrap().tasks@.len() ==> #[trigger] p.tasks@[t] == old(self).proc_at(pid as int).unwrap().tasks@[t],
                forall|t: int| old(self).proc_at(pid as int).unwrap().tasks@.len() <= t < p.tasks@.len() ==> (#[trigger] p.tasks@[t]).is_none(),
                p.tasks@.len() >= old(self).proc_at(pid as int).unwrap().tasks@.len(),
                p.tasks@.len() <= tid + 1 || p.tasks@.len() == old(self).proc_at(pid as int).unwrap().tasks@.len(),
                p.pid == old(self).proc_at(pid as int).unwrap().pid,
                p.parent == old(self).proc_at(pid as int).unwrap().parent,
                p.children == old(self).proc_at(pid as int).unwrap().children,
                p.is_zombie == old(self).proc_at(pid as int).unwrap().is_zombie,
                p.exit_code == old(self).proc_at(pid as int).unwrap().exit_code,
                p.sync == old(self).proc_at(pid as int).unwrap().sync,
            decreases tid + 1 - p.tasks@.len(),
        {
            p.tasks.push(None);
        }
        p.tasks.set(tid, Some(tcb));
        self.procs.set(pid, Some(p));
        proof {
            let ok = *old(self);
            assert forall|q: int| q != pid implies #[trigger] self.proc_at(q) == ok.proc_at(q) by {}
            assert forall|q: int| #[trigger] self.has_proc(q) == ok.has_proc(q) by {}
            assert forall|q: int, t: int| !(q == pid && t == tid) implies #[trigger] self.task_at(q, t) == ok.task_at(q, t) by {
                if q == pid {
                    let ot = ok.proc_at(q).unwrap().tasks@;
                    if 0 <= t < ot.len() {
                        assert(self.proc_at(q).unwrap().tasks@[t] == ot[t]);
                    }
                }
            }
            assert forall|q: int, t: int| #[trigger] self.has_task(q, t) implies self.task_at(q, t).unwrap().priority >= 1 by {
                if !(q == pid && t == tid) {
                    assert(ok.has_task(q, t));
                }
            }
            assert forall|id: usize| #[trigger] self.pids.live().contains(id) <==> self.has_proc(id as int) by {
                assert(ok.pids.live().contains(id) <==> ok.has_proc(id as int));
            }
            assert forall|q: int| #[trigger] self.has_proc(q) implies {
                let pr = self.proc_at(q).unwrap();
                &&& pr.pid == q
                &&& pr.parent != Some(q as usize)
                &&& pr.children@.no_duplicates()
                &&& pr.is_zombie ==> pr.children@.len() == 0
                &&& pr.sync.wf()
                &&& pr.tasks@.len() < isize::MAX
                &&& forall|t: int|
                    0 <= t < pr.tasks@.len() && (#[trigger] pr.tasks@[t]).is_some() ==> pr.tasks@[t].unwrap().tid == t
            } by {
                assert(ok.has_proc(q));
                if q == pid {
                    let pr = self.proc_at(q).unwrap();
                    assert forall|t: int| 0 <= t < pr.tasks@.len() && (#[trigger] pr.tasks@[t]).is_some() implies pr.tasks@[t].unwrap().tid == t by {
                        if t != tid {
                            assert(self.task_at(q, t) == ok.task_at(q, t));
                            assert(ok.has_task(q, t));
                        }
                    }
                }
            }
            assert forall|a: usize, x: usize| self.has_parent(x, a) <==> self.is_child(a, x) by {
                assert(ok.has_parent(x, a) == ok.is_child(a, x));
                if x != pid {
                    assert(self.proc_at(x as int) == ok.proc_at(x as int));
                }
                if a != pid {
                    assert(self.proc_at(a as int) == ok.proc_at(a as int));
                }
            }
            assert forall|k: int|
                0 <= k < self.ready@.len() implies self.has_task(
                    #[trigger] self.ready@[k].0 as int,
                    self.ready@[k].1 as int,
                ) && self.status_of(self.ready@[k].0 as int, self.ready@[k].1 as int)
                    == TaskStatus::Ready && !self.proc_at(self.ready@[k].0 as int).unwrap().is_zombie by {
                let x = self.ready@[k];
                assert(ok.has_task(x.0 as int, x.1 as int));
                assert(ok.has_proc(x.0 as int));
                assert(!(x.0 == pid && x.1 == tid));
                assert(self.task_at(x.0 as int, x.1 as int) == ok.task_at(x.0 as int, x.1 as int));
            }
            if let Some(cur) = self.current {
                assert(ok.has_task(cur.0 as int, cur.1 as int));
                assert(ok.has_proc(cur.0 as int));
                assert(self.task_at(cur.0 as int, cur.1 as int) == ok.task_at(cur.0 as int, cur.1 as int));
            }
            assert(self.proc_at(INIT_PID as int).unwrap().parent == ok.proc_at(INIT_PID as int).unwrap().parent);
        }
    }

    /// Empties slot `tid` of process `pid`; the thread must be neither
    /// queued nor running.
    pub fn remove_task(&mut self, pid: usize, tid: usize)
        requires
            old(self).wf(),
            old(self).has_task(pid as int, tid as int),
            !old(self).ready@.contains((pid, tid)),
            old(self).current != Some((pid, tid)),
        ensures
            final(self).wf(),
            final(self).ready == old(self).ready,
            final(self).current == old(self).current,
            !final(self).has_task(pid as int, tid as int),
            forall|q: int, t: int| !(q == pid && t == tid) ==> #[trigger] final(self).task_at(q, t) == old(self).task_at(q, t),
            forall|q: int| #[trigger] final(self).has_proc(q) == old(self).has_proc(q),
            forall|q: int| #[trigger] final(self).has_proc(q) ==> same_links_but_tasks(final(self).proc_at(q).unwrap(), old(self).proc_at(q).unwrap()),
    {
        let mut p = take_slot(&mut self.procs, pid).unwrap();
        p.tasks.set(tid, None);
        self.procs.set(pid, Some(p));
        proof {
            let ok = *old(self);
            assert forall|q: int| q != pid implies #[trigger] self.proc_at(q) == ok.proc_at(q) by {}
            assert forall|q: int| #[trigger] self.has_proc(q) == ok.has_proc(q) by {}
            assert forall|q: int, t: int| !(q == pid && t == tid) implies #[trigger] self.task_at(q, t) == ok.task_at(q, t) by {}
            assert forall|q: int, t: int| #[trigger] self.has_task(q, t) implies self.task_at(q, t).unwrap().priority >= 1 by {
                assert(ok.has_task(q, t));
            }
            assert forall|id: usize| #[trigger] self.pids.live().contains(id) <==> self.has_proc(id as int) by {
                assert(ok.pids.live().contains(id) <==> ok.has_proc(id as int));
            }
            assert forall|q: int| #[trigger] self.has_proc(q) implies {
                let pr = self.proc_at(q).unwrap();
                &&& pr.pid == q
                &&& pr.parent != Some(q as usize)
                &&& pr.children@.no_duplicates()
                &&& pr.is_zombie ==> pr.children@.len() == 0
                &&& pr.sync.wf()
                &&& pr.tasks@.len() < isize::MAX
                &&& forall|t: int|
                    0 <= t < pr.tasks@.len() && (#[trigger] pr.tasks@[t]).is_some() ==> pr.tasks@[t].unwrap().tid == t
            } by {
                assert(ok.has_proc(q));
                if q == pid {
                    let pr = self.proc_at(q).unwrap();
                    assert forall|t: int| 0 <= t < pr.tasks@.len() && (#[trigger] pr.tasks@[t]).is_some() implies pr.tasks@[t].unwrap().tid == t by {
                        assert(self.task_at(q, t) == ok.task_at(q, t));
                        assert(ok.has_task(q, t));
                    }
                }
            }
            assert forall|a: usize, x: usize| self.has_parent(x, a) <==> self.is_child(a, x) by {
                assert(ok.has_parent(x, a) == ok.is_child(a, x));
                if x != pid {
                    assert(self.proc_at(x as int) == ok.proc_at(x as int));
                }
                if a != pid {
                    assert(self.proc_at(a as int) == ok.proc_at(a as int));
                }
            }
            assert forall|k: int|
                0 <= k < self.ready@.len() implies self.has_task(
                    #[trigger] self.ready@[k].0 as int,
                    self.ready@[k].1 as int,
                ) && self.status_of(self.ready@[k].0 as int, self.ready@[k].1 as int)
                    == TaskStatus::Ready && !self.proc_at(self.ready@[k].0 as int).unwrap().is_zombie by {
                let x = self.ready@[k];
                assert(ok.has_task(x.0 as int, x.1 as int));
                assert(ok.has_proc(x.0 as int));
                assert(ok.ready@.contains(x));
                assert(!(x.0 == pid && x.1 == tid));
                assert(self.task_at(x.0 as int, x.1 as int) == ok.task_at(x.0 as int, x.1 as int));
            }
            if let Some(cur) = self.current {
                assert(ok.has_task(cur.0 as int, cur.1 as int));
                assert(ok.has_proc(cur.0 as int));
                assert(self.task_at(cur.0 as int, cur.1 as int) == ok.task_at(cur.0 as int, cur.1 as int));
            }
            assert(self.proc_at(INIT_PID as int).unwrap().parent == ok.proc_at(INIT_PID as int).unwrap().parent);
        }
    }
}


impl Kernel {
    /// Replaces the trap context of an existing task.
    pub fn set_trap_cx(&mut self, pid: usize, tid: usize, cx: TrapContext)
        requires
            old(self).wf(),
            old(self).has_task(pid as int, tid as int),
        ensures
            forall|q: int| q != pid ==> #[trigger] final(self).proc_at(q) == old(self).proc_at(q),
            final(self).wf(),
            old(self).same_shape(final(self)),
            forall|q: int| #[trigger] final(self).has_proc(q) ==> final(self).proc_at(q).unwrap().sync == old(self).proc_at(q).unwrap().sync,
            final(self).ready == old(self).ready,
            final(self).current == old(self).current,
            forall|q: int, t: int|
                #[trigger] final(self).task_at(q, t) == if q == pid && t == tid {
                    Some(TaskControlBlock { trap_cx: cx, ..old(self).task_at(q, t).unwrap() })
                } else {
                    old(self).task_at(q, t)
                },
    {
        let mut p = take_slot(&mut self.procs, pid).unwrap();
        let mut t = take_slot(&mut p.tasks, tid).unwrap();
        t.trap_cx = cx;
        p.tasks.set(tid, Some(t));
        self.procs.set(pid, Some(p));
        proof {
            assert forall|q: int| q != pid implies #[trigger] self.proc_at(q) == old(self).proc_at(q) by {}
            assert forall|q: int| #[trigger] self.has_proc(q) implies self.proc_at(q).unwrap().sync == old(self).proc_at(q).unwrap().sync by {}
            assert forall|q: int, u: int| #[trigger] self.has_task(q, u) == old(self).has_task(q, u) by {}
            assert(old(self).same_shape(self));
            assert forall|k: int|
                0 <= k < self.ready@.len() implies self.has_task(
                    #[trigger] self.ready@[k].0 as int,
                    self.ready@[k].1 as int,
                ) && self.status_of(self.ready@[k].0 as int, self.ready@[k].1 as int)
                    == TaskStatus::Ready && !self.proc_at(self.ready@[k].0 as int).unwrap().is_zombie by {
                let x = self.ready@[k];
                assert(old(self).has_task(x.0 as int, x.1 as int));
                assert(old(self).has_proc(x.0 as int));
            }
            if let Some(cur) = self.current {
                assert(old(self).has_task(cur.0 as int, cur.1 as int));
                assert(old(self).has_proc(cur.0 as int));
            }
            assert forall|q: int, u: int|
                #[trigger] self.has_task(q, u) implies self.task_at(q, u).unwrap().priority >= 1 by {
                assert(old(self).has_task(q, u));
            }
            old(self).lemma_same_shape_wf(self);
        }
    }
}


impl Kernel {
    /// Counts one use of system call `id` by the running task (the count
    /// stays at its largest value once there).
    pub fn record_syscall(&mut self, id: usize)
        requires
            old(self).wf(),
            old(self).current.is_some(),
        ensures
            final(self).wf(),
            old(self).same_shape(final(self)),
            final(self).ready == old(self).ready,
            final(self).current == old(self).current,
            ({
                let (pid, tid) = old(self).current.unwrap();
                let c0 = old(self).task_at(pid as int, tid as int).unwrap().syscall_times@;
                &&& final(self).task_at(pid as int, tid as int) == Some(TaskControlBlock {
                    syscall_times: final(self).task_at(pid as int, tid as int).unwrap().syscall_times,
                    ..old(self).task_at(pid as int, tid as int).unwrap()
                })
                &&& final(self).task_at(pid as int, tid as int).unwrap().syscall_times@ == if id < c0.len() && c0[id as int] < u32::MAX {
                    c0.update(id as int, (c0[id as int] + 1) as u32)
                } else {
                    c0
                }
                &&& forall|q: int, u: int| !(q == pid && u == tid) ==> #[trigger] final(self).task_at(q, u) == old(self).task_at(q, u)
            }),
            forall|q: int| #[trigger] final(self).has_proc(q) ==> final(self).proc_at(q).unwrap().sync == old(self).proc_at(q).unwrap().sync,
    {
        let (pid, tid) = self.current.unwrap();
        assert(self.has_task(pid as int, tid as int));
        let mut p = take_slot(&mut self.procs, pid).unwrap();
        let mut t = take_slot(&mut p.tasks, tid).unwrap();
        if id < t.syscall_times.len() && t.syscall_times[id] < u32::MAX {
            let v = t.syscall_times[id] + 1;
            t.syscall_times.set(id, v);
        }
        p.tasks.set(tid, Some(t));
        self.procs.set(pid, Some(p));
        proof {
            assert forall|q: int| #[trigger] self.has_proc(q) implies self.proc_at(q).unwrap().sync == old(self).proc_at(q).unwrap().sync by {}
            assert forall|q: int, u: int| #[trigger] self.has_task(q, u) == old(self).has_task(q, u) by {}
            assert forall|q: int, u: int| !(q == pid && u == tid) implies #[trigger] self.task_at(q, u) == old(self).task_at(q, u) by {}
            assert(old(self).same_shape(self));
            assert forall|k: int|
                0 <= k < self.ready@.len() implies self.has_task(
                    #[trigger] self.ready@[k].0 as int,
                    self.ready@[k].1 as int,
                ) && self.status_of(self.ready@[k].0 as int, self.ready@[k].1 as int)
                    == TaskStatus::Ready && !self.proc_at(self.ready@[k].0 as int).unwrap().is_zombie by {
                let x = self.ready@[k];
                assert(old(self).has_task(x.0 as int, x.1 as int));
                assert(old(self).has_proc(x.0 as int));
            }
            if let Some(cur) = self.current {
                assert(old(self).has_task(cur.0 as int, cur.1 as int));
                assert(old(self).has_proc(cur.0 as int));
            }
            assert forall|q: int, u: int|
                #[trigger] self.has_task(q, u) implies self.task_at(q, u).unwrap().priority >= 1 by {
                assert(old(self).has_task(q, u));
            }
            old(self).lemma_same_shape_wf(self);
        }
    }
}

} // verus!
