//! Task state changes that leave the hart: yield, block, wake.
use crate::task::{Kernel, TaskStatus};
use vstd::prelude::*;

verus! {

impl Kernel {
    /// The running task goes back to the end of the ready queue.
    pub fn suspend_current(&mut self) -> (r: (usize, usize))
        requires
            old(self).wf(),
            old(self).current.is_some(),
        ensures
            final(self).wf(),
            old(self).same_shape(final(self)),
            forall|q: int| #[trigger] final(self).has_proc(q) ==> final(self).proc_at(q).unwrap().sync == old(self).proc_at(q).unwrap().sync,
            r == old(self).current.unwrap(),
            final(self).current.is_none(),
            final(self).ready@ == old(self).ready@.push(r),
            final(self).status_of(r.0 as int, r.1 as int) == TaskStatus::Ready,
            forall|q: int, t: int|
                #[trigger] final(self).task_at(q, t) == if q == r.0 && t == r.1 {
                    Some(crate::task::TaskControlBlock { status: TaskStatus::Ready, ..old(self).task_at(q, t).unwrap() })
                } else {
                    old(self).task_at(q, t)
                },
    {
        let cur = self.current.unwrap();
        self.current = None;
        proof {
            assert(old(self).same_shape(self));
            assert forall|k: int|
                0 <= k < self.ready@.len() implies self.has_task(
                    #[trigger] self.ready@[k].0 as int,
                    self.ready@[k].1 as int,
                ) && self.status_of(self.ready@[k].0 as int, self.ready@[k].1 as int)
                    == TaskStatus::Ready by {
                assert(old(self).has_task(old(self).ready@[k].0 as int, old(self).ready@[k].1 as int));
            }
            old(self).lemma_same_shape_wf(self);
        }
        let ghost mid = *self;
        self.add_task(cur.0, cur.1);
        assert forall|q: int| #[trigger] self.has_proc(q) implies self.proc_at(q).unwrap().sync == old(self).proc_at(q).unwrap().sync by {
            assert(mid.has_proc(q));
            assert(mid.proc_at(q) == old(self).proc_at(q));
        }
        cur
    }

    /// The running task leaves the hart to wait; a later `wakeup` makes it ready.
    pub fn block_current(&mut self) -> (r: (usize, usize))
        requires
            old(self).wf(),
            old(self).current.is_some(),
        ensures
            final(self).wf(),
            old(self).same_shape(final(self)),
            forall|q: int| #[trigger] final(self).has_proc(q) ==> final(self).proc_at(q).unwrap().sync == old(self).proc_at(q).unwrap().sync,
            r == old(self).current.unwrap(),
            final(self).current.is_none(),
            final(self).ready == old(self).ready,
            forall|q: int, t: int|
                #[trigger] final(self).task_at(q, t) == if q == r.0 && t == r.1 {
                    Some(crate::task::TaskControlBlock { status: TaskStatus::Blocked, ..old(self).task_at(q, t).unwrap() })
                } else {
                    old(self).task_at(q, t)
                },
    {
        let cur = self.current.unwrap();
        self.current = None;
        let ghost mid = *self;
        assert(mid.has_task(cur.0 as int, cur.1 as int));
        self.set_status(cur.0, cur.1, TaskStatus::Blocked);
        proof {
            assert forall|q: int| #[trigger] self.has_proc(q) implies self.proc_at(q).unwrap().sync == old(self).proc_at(q).unwrap().sync by {
                assert(mid.has_proc(q));
                assert(mid.proc_at(q) == old(self).proc_at(q));
            }
            old(self).lemma_same_procs_shape(&mid);
            old(self).lemma_same_shape_trans(&mid, self);
            assert forall|q: int, t: int| #[trigger] mid.task_at(q, t) == old(self).task_at(q, t) by {}
            assert forall|q: int| #[trigger] mid.proc_at(q) == old(self).proc_at(q) by {}
            assert forall|k: int|
                0 <= k < self.ready@.len() implies self.has_task(
                    #[trigger] self.ready@[k].0 as int,
                    self.ready@[k].1 as int,
                ) && self.status_of(self.ready@[k].0 as int, self.ready@[k].1 as int)
                    == TaskStatus::Ready && !self.proc_at(self.ready@[k].0 as int).unwrap().is_zombie by {
                let x = self.ready@[k];
                assert(old(self).has_task(x.0 as int, x.1 as int));
                assert(x != cur);
                assert(self.task_at(x.0 as int, x.1 as int) == old(self).task_at(x.0 as int, x.1 as int));
                assert(old(self).has_proc(x.0 as int));
            }
            assert forall|q: int, t: int|
                #[trigger] self.has_task(q, t) implies self.task_at(q, t).unwrap().priority >= 1 by {
                assert(old(self).has_task(q, t));
            }
            old(self).lemma_same_shape_wf(self);
        }
        assert forall|q: int, t: int|
            #[trigger] self.task_at(q, t) == if q == cur.0 && t == cur.1 {
                Some(crate::task::TaskControlBlock { status: TaskStatus::Blocked, ..old(self).task_at(q, t).unwrap() })
            } else {
                old(self).task_at(q, t)
            } by {
            assert(mid.task_at(q, t) == old(self).task_at(q, t));
        }
        cur
    }

    /// A blocked task becomes ready again.
    pub fn wakeup(&mut self, pid: usize, tid: usize)
        requires
            old(self).wf(),
            old(self).has_task(pid as int, tid as int),
            old(self).status_of(pid as int, tid as int) == TaskStatus::Blocked,
            !old(self).proc_at(pid as int).unwrap().is_zombie,
        ensures
            final(self).wf(),
            old(self).same_shape(final(self)),
            forall|q: int, t: int|
                #[trigger] final(self).task_at(q, t) == if q == pid && t == tid {
                    Some(crate::task::TaskControlBlock { status: TaskStatus::Ready, ..old(self).task_at(q, t).unwrap() })
                } else {
                    old(self).task_at(q, t)
                },
            forall|q: int| #[trigger] final(self).has_proc(q) ==> final(self).proc_at(q).unwrap().sync == old(self).proc_at(q).unwrap().sync,
            final(self).current == old(self).current,
            final(self).ready@ == old(self).ready@.push((pid, tid)),
            final(self).status_of(pid as int, tid as int) == TaskStatus::Ready,
    {
        proof {
            if old(self).current == Some((pid, tid)) {
                assert(old(self).status_of(pid as int, tid as int) == TaskStatus::Running);
            }
        }
        self.add_task(pid, tid);
    }
}

} // verus!

verus! {

/// The ready-queue entry `e` is one that `dequeue_proc(p, tid)` drops.
pub open spec fn dropped(e: (usize, usize), p: usize, tid: Option<usize>) -> bool {
    e.0 == p && match tid {
        Some(t) => e.1 == t,
        None => true,
    }
}

/// `c` is a child that `waitpid(pid)` waits for: `-1` means any child.
pub open spec fn wait_match(pid: isize, c: usize) -> bool {
    pid == -1 || pid == c as int
}

impl Kernel {
    pub open spec fn current_pid(&self) -> int {
        self.current.unwrap().0 as int
    }

    pub open spec fn children_of(&self, p: int) -> Seq<usize> {
        self.proc_at(p).unwrap().children@
    }

    pub open spec fn is_zombie_proc(&self, c: int) -> bool {
        self.proc_at(c).unwrap().is_zombie
    }

    /// Position of the first child of `p` that matches `pid` and has exited.
    pub open spec fn first_zombie_match(&self, p: int, pid: isize, idx: int) -> bool {
        let kids = self.children_of(p);
        &&& 0 <= idx < kids.len()
        &&& wait_match(pid, kids[idx])
        &&& self.is_zombie_proc(kids[idx] as int)
        &&& forall|j: int|
            0 <= j < idx ==> !(wait_match(pid, #[trigger] kids[j]) && self.is_zombie_proc(
                kids[j] as int,
            ))
    }

    /// Waits on the children of the running process. `-1` when no child
    /// matches `pid`; `-2` when some match but none has exited; else the
    /// first exited match in children order is reaped, and its pid and exit
    /// code are returned.
    pub fn waitpid(&mut self, pid: isize) -> (r: (isize, Option<i32>))
        requires
            old(self).wf(),
            old(self).current.is_some(),
        ensures
            final(self).wf(),
            final(self).current == old(self).current,
            final(self).ready == old(self).ready,
            ({
                let p = old(self).current_pid();
                let kids = old(self).children_of(p);
                &&& r.0 == -1 <==> !exists|k: int| 0 <= k < kids.len() && wait_match(pid, #[trigger] kids[k])
                &&& r.0 == -2 <==> (exists|k: int| 0 <= k < kids.len() && wait_match(pid, #[trigger] kids[k]))
                    && !exists|k: int| 0 <= k < kids.len() && wait_match(pid, #[trigger] kids[k])
                        && old(self).is_zombie_proc(kids[k] as int)
                &&& r.0 == -1 || r.0 == -2 || r.0 >= 0
                &&& r.0 < 0 ==> r.1.is_none() && final(self).procs == old(self).procs
                &&& r.0 >= 0 ==> exists|idx: int|
                    old(self).first_zombie_match(p, pid, idx) && r.0 == kids[idx] as int
                        && r.1 == Some(old(self).proc_at(kids[idx] as int).unwrap().exit_code)
                        && !final(self).has_proc(kids[idx] as int)
                        && final(self).children_of(p) == kids.remove(idx)
            }),
    {
        let (p, _tid) = self.current.unwrap();
        proof {
            assert(self.has_proc(p as int));
        }
        let n = self.procs[p].as_ref().unwrap().children.len();
        let ghost kids = self.children_of(p as int);
        let mut any = false;
        let mut i: usize = 0;
        while i < n
            invariant
                self == old(self),
                self.wf(),
                self.current.is_some(),
                p == self.current_pid(),
                self.has_proc(p as int),
                kids == self.children_of(p as int),
                n == kids.len(),
                i <= n,
                any == exists|k: int| 0 <= k < i && wait_match(pid, #[trigger] kids[k]),
                forall|j: int|
                    0 <= j < i ==> !(wait_match(pid, #[trigger] kids[j]) && self.is_zombie_proc(
                        kids[j] as int,
                    )),
            decreases n - i,
        {
            let c = self.procs[p].as_ref().unwrap().children[i];
            let m = pid == -1 || (pid >= 0 && pid as usize == c);
            proof {
                assert(kids[i as int] == c);
                assert(self.is_child(p, c));
                assert(self.has_parent(c, p));
                assert(self.has_proc(c as int));
            }
            if m {
                any = true;
                let z = self.procs[c].as_ref().unwrap().is_zombie;
                if z {
                    let code = self.procs[c].as_ref().unwrap().exit_code;
                    proof {
                        assert(self.first_zombie_match(p as int, pid, i as int));
                    }
                    self.reap(p, i);
                    return (c as isize, Some(code));
                }
            }
            i = i + 1;
        }
        if any {
            (-2, None)
        } else {
            (-1, None)
        }
    }

    /// Drops the exited child at position `idx` of `p`'s children: it leaves
    /// the list and the process table, and its pid is free again.
    fn reap(&mut self, p: usize, idx: usize)
        requires
            old(self).wf(),
            old(self).current.is_some(),
            p == old(self).current_pid(),
            0 <= idx < old(self).children_of(p as int).len(),
            old(self).is_zombie_proc(old(self).children_of(p as int)[idx as int] as int),
        ensures
            final(self).wf(),
            final(self).current == old(self).current,
            final(self).ready == old(self).ready,
            !final(self).has_proc(old(self).children_of(p as int)[idx as int] as int),
            final(self).children_of(p as int) == old(self).children_of(p as int).remove(idx as int),
    {
        let ghost kids = self.children_of(p as int);
        proof {
            assert(self.has_proc(p as int));
        }
        let mut pp = crate::task::take_slot(&mut self.procs, p).unwrap();
        let c = pp.children.remove(idx);
        self.procs.set(p, Some(pp));
        proof {
            assert(old(self).is_child(p, c));
            assert(old(self).has_parent(c, p));
            assert(old(self).has_proc(c as int));
            assert(c != p) by {
                let cur = old(self).current.unwrap();
                assert(!old(self).proc_at(cur.0 as int).unwrap().is_zombie);
            }
        }
        let _gone = crate::task::take_slot(&mut self.procs, c);
        self.pids.dealloc(c);
        proof {
            let ok = *old(self);
            assert(self.children_of(p as int) =~= kids.remove(idx as int));
            assert(kids.remove(idx as int).no_duplicates()) by {
                assert forall|i: int, j: int| 0 <= i < j < kids.remove(idx as int).len() implies kids.remove(idx as int)[i] != kids.remove(idx as int)[j] by {
                    let bi = if i < idx { i } else { i + 1 };
                    let bj = if j < idx { j } else { j + 1 };
                }
            }
            assert(!kids.remove(idx as int).contains(c)) by {
                if kids.remove(idx as int).contains(c) {
                    let j = kids.remove(idx as int).index_of(c);
                    let bj = if j < idx { j } else { j + 1 };
                    assert(kids[bj] == c);
                }
            }
            assert forall|q: int| q != p && q != c implies #[trigger] self.proc_at(q) == ok.proc_at(q) by {}
            assert forall|q: int, t: int| q != c implies #[trigger] self.task_at(q, t) == ok.task_at(q, t) by {
                if q == p {
                    assert(self.proc_at(q).unwrap().tasks == ok.proc_at(q).unwrap().tasks);
                }
            }
            assert forall|id: usize| #[trigger] self.pids.live().contains(id) <==> self.has_proc(id as int) by {
                assert(ok.pids.live().contains(id) <==> ok.has_proc(id as int));
            }
            assert forall|pid: int| #[trigger] self.has_proc(pid) implies {
                let pr = self.proc_at(pid).unwrap();
                &&& pr.pid == pid
                &&& pr.parent != Some(pid as usize)
                &&& pr.children@.no_duplicates()
                &&& pr.is_zombie ==> pr.children@.len() == 0
                &&& pr.sync.wf()
                &&& pr.tasks@.len() < isize::MAX
                &&& forall|t: int|
                    0 <= t < pr.tasks@.len() && (#[trigger] pr.tasks@[t]).is_some() ==> pr.tasks@[t].unwrap().tid == t
            } by {
                assert(ok.has_proc(pid));
            }
            assert forall|a: usize, x: usize| self.has_parent(x, a) <==> self.is_child(a, x) by {
                if x == c {
                    if ok.is_child(a, x) {
                        assert(ok.has_parent(x, a));
                    }
                } else {
                    assert(self.has_parent(x, a) == ok.has_parent(x, a));
                    if a == c {
                        if ok.has_parent(x, a) {
                            assert(ok.is_child(a, x));
                        }
                    } else if a == p {
                        assert(self.children_of(p as int).contains(x) == kids.contains(x)) by {
                            if kids.contains(x) {
                                let j = kids.index_of(x);
                                assert(j != idx);
                                let rj = if j < idx { j } else { j - 1 };
                                assert(kids.remove(idx as int)[rj] == x);
                            }
                            if self.children_of(p as int).contains(x) {
                                let j = self.children_of(p as int).index_of(x);
                                let bj = if j < idx { j } else { j + 1 };
                                assert(kids[bj] == x);
                            }
                        }
                    } else {
                        assert(self.is_child(a, x) == ok.is_child(a, x));
                    }
                }
            }
            let cur = self.current.unwrap();
            assert(ok.has_task(cur.0 as int, cur.1 as int));
            assert(cur.0 != c);
            assert forall|k: int|
                0 <= k < self.ready@.len() implies self.has_task(
                    #[trigger] self.ready@[k].0 as int,
                    self.ready@[k].1 as int,
                ) && self.status_of(self.ready@[k].0 as int, self.ready@[k].1 as int)
                    == TaskStatus::Ready && !self.proc_at(self.ready@[k].0 as int).unwrap().is_zombie by {
                let x = self.ready@[k];
                assert(ok.has_task(x.0 as int, x.1 as int));
                assert(!ok.proc_at(x.0 as int).unwrap().is_zombie);
                assert(x.0 != c);
                assert(ok.has_proc(x.0 as int));
            }
            assert forall|q: int, t: int|
                #[trigger] self.has_task(q, t) implies self.task_at(q, t).unwrap().priority >= 1 by {
                assert(ok.has_task(q, t));
            }
            assert(self.has_proc(crate::task::INIT_PID as int)) by {
                assert(ok.proc_at(c as int).unwrap().parent == Some(p));
            }
        }
    }
}

} // verus!

verus! {

/// A copy of a trap context.
pub fn copy_trap_cx(cx: &crate::trap::TrapContext) -> (r: crate::trap::TrapContext)
    ensures
        r.x@ == cx.x@,
        r.sepc == cx.sepc,
        r.kernel_satp == cx.kernel_satp,
        r.kernel_sp == cx.kernel_sp,
        r.trap_handler == cx.trap_handler,
{
    let mut x: Vec<usize> = Vec::new();
    let mut i: usize = 0;
    while i < cx.x.len()
        invariant
            i <= cx.x@.len(),
            x@ == cx.x@.take(i as int),
        decreases cx.x@.len() - i,
    {
        x.push(cx.x[i]);
        i = i + 1;
        assert(x@ =~= cx.x@.take(i as int));
    }
    assert(x@ =~= cx.x@);
    crate::trap::TrapContext {
        x,
        sepc: cx.sepc,
        kernel_satp: cx.kernel_satp,
        kernel_sp: cx.kernel_sp,
        trap_handler: cx.trap_handler,
    }
}

impl Kernel {
    /// Copies the running process: the child gets a fresh pid, the running
    /// process as parent, no children, and one ready thread (tid 0) whose
    /// trap context is the caller's with `a0 = 0`, so that fork returns 0
    /// there. Returns the child's pid.
    pub fn fork(&mut self) -> (r: usize)
        requires
            old(self).wf(),
            old(self).current.is_some(),
            old(self).procs@.len() + 1 < isize::MAX,
        ensures
            final(self).wf(),
            ({
                let p = old(self).current_pid();
                let cur = old(self).current.unwrap();
                let cx = old(self).task_at(cur.0 as int, cur.1 as int).unwrap().trap_cx;
                &&& !old(self).has_proc(r as int)
                &&& final(self).has_proc(r as int)
                &&& final(self).proc_at(r as int).unwrap().parent == Some(p as usize)
                &&& final(self).children_of(r as int).len() == 0
                &&& !final(self).is_zombie_proc(r as int)
                &&& final(self).children_of(p) == old(self).children_of(p).push(r)
                &&& final(self).has_task(r as int, 0)
                &&& final(self).status_of(r as int, 0) == TaskStatus::Ready
                &&& final(self).task_at(r as int, 0).unwrap().trap_cx.x@ == if cx.x@.len() > 10 { cx.x@.update(10, 0) } else { cx.x@ }
                &&& forall|q: int| q != r && q != p ==> #[trigger] final(self).proc_at(q) == old(self).proc_at(q)
                &&& final(self).proc_at(p).unwrap().sync == old(self).proc_at(p).unwrap().sync
                &&& final(self).proc_at(p).unwrap().tasks == old(self).proc_at(p).unwrap().tasks
                &&& final(self).proc_at(p).unwrap().parent == old(self).proc_at(p).unwrap().parent
                &&& final(self).task_at(r as int, 0).unwrap().trap_cx.sepc == cx.sepc
                &&& final(self).ready@ == old(self).ready@.push((r, 0usize))
                &&& final(self).current == old(self).current
            }),
    {
        let (p, t) = self.current.unwrap();
        proof {
            assert(self.has_task(p as int, t as int));
        }
        let ghost ok = *self;
        let mut cx = copy_trap_cx(&self.procs[p].as_ref().unwrap().tasks[t].as_ref().unwrap().trap_cx);
        if cx.x.len() > 10 {
            cx.x.set(10, 0);
        }
        let child_pid = self.pids.allocate();
        let mut tasks: Vec<Option<crate::task::TaskControlBlock>> = Vec::new();
        let mut tcb = crate::task::TaskControlBlock::new(0, cx);
        tcb.status = TaskStatus::UnInit;
        tasks.push(Some(tcb));
        let child = crate::task::ProcessControlBlock {
            pid: child_pid,
            parent: Some(p),
            children: Vec::new(),
            is_zombie: false,
            exit_code: 0,
            tasks,
            sync: crate::sync::SyncState::new(),
        };
        proof {
            assert(!ok.has_proc(child_pid as int));
            assert(child_pid <= ok.procs@.len());
            assert(child_pid != p);
        }
        if child_pid == self.procs.len() {
            self.procs.push(Some(child));
        } else {
            self.procs.set(child_pid, Some(child));
        }
        let mut pp = crate::task::take_slot(&mut self.procs, p).unwrap();
        pp.children.push(child_pid);
        self.procs.set(p, Some(pp));
        proof {
            let c = child_pid as int;
            assert forall|q: int| q != c && q != p implies #[trigger] self.proc_at(q) == ok.proc_at(q) by {}
            assert forall|q: int, u: int| q != c implies #[trigger] self.task_at(q, u) == ok.task_at(q, u) by {
                if q == p {
                    assert(self.proc_at(q).unwrap().tasks == ok.proc_at(q).unwrap().tasks);
                }
            }
            assert(!ok.children_of(p as int).contains(child_pid)) by {
                if ok.children_of(p as int).contains(child_pid) {
                    assert(ok.is_child(p, child_pid));
                    assert(ok.has_parent(child_pid, p));
                }
            }
            assert(self.children_of(p as int) =~= ok.children_of(p as int).push(child_pid));
            assert(self.children_of(p as int).no_duplicates()) by {
                assert(ok.has_proc(p as int));
                assert(ok.children_of(p as int).no_duplicates());
                assert forall|i: int, j: int| 0 <= i < j < self.children_of(p as int).len() implies self.children_of(p as int)[i] != self.children_of(p as int)[j] by {
                    if j == ok.children_of(p as int).len() {
                        assert(ok.children_of(p as int).contains(self.children_of(p as int)[i]));
                    }
                }
            }
            assert forall|id: usize| #[trigger] self.pids.live().contains(id) <==> self.has_proc(id as int) by {
                assert(ok.pids.live().contains(id) <==> ok.has_proc(id as int));
            }
            assert forall|pid: int| #[trigger] self.has_proc(pid) implies {
                let pr = self.proc_at(pid).unwrap();
                &&& pr.pid == pid
                &&& pr.parent != Some(pid as usize)
                &&& pr.children@.no_duplicates()
                &&& pr.is_zombie ==> pr.children@.len() == 0
                &&& pr.sync.wf()
                &&& pr.tasks@.len() < isize::MAX
                &&& forall|u: int|
                    0 <= u < pr.tasks@.len() && (#[trigger] pr.tasks@[u]).is_some() ==> pr.tasks@[u].unwrap().tid == u
            } by {
                if pid != c {
                    assert(ok.has_proc(pid));
                }
            }
            assert forall|a: usize, x: usize| self.has_parent(x, a) <==> self.is_child(a, x) by {
                if a != p && a != child_pid {
                    assert(self.proc_at(a as int) == ok.proc_at(a as int));
                }
                if x != p && x != child_pid {
                    assert(self.proc_at(x as int) == ok.proc_at(x as int));
                }
                if x == child_pid {
                    if a == p {
                        assert(self.children_of(p as int)[ok.children_of(p as int).len() as int] == child_pid);
                    } else if a != child_pid {
                        assert(!ok.has_parent(x, a));
                        assert(!ok.is_child(a, x));
                    }
                } else {
                    assert(self.has_parent(x, a) == ok.has_parent(x, a));
                    if a == p {
                        assert(self.children_of(p as int).contains(x) == ok.children_of(p as int).contains(x)) by {
                            if self.children_of(p as int).contains(x) {
                                let j = self.children_of(p as int).index_of(x);
                                if j < ok.children_of(p as int).len() {
                                    assert(ok.children_of(p as int)[j] == x);
                                }
                            }
                            if ok.children_of(p as int).contains(x) {
                                let j = ok.children_of(p as int).index_of(x);
                                assert(self.children_of(p as int)[j] == x);
                            }
                        }
                        assert(ok.has_parent(x, a) == ok.is_child(a, x));
                    } else if a == child_pid {
                        assert(!ok.is_child(a, x));
                        assert(!ok.has_parent(x, a));
                    } else {
                        assert(self.is_child(a, x) == ok.is_child(a, x));
                        assert(ok.has_parent(x, a) == ok.is_child(a, x));
                    }
                }
            }
            assert forall|k: int|
                0 <= k < self.ready@.len() implies self.has_task(
                    #[trigger] self.ready@[k].0 as int,
                    self.ready@[k].1 as int,
                ) && self.status_of(self.ready@[k].0 as int, self.ready@[k].1 as int)
                    == TaskStatus::Ready && !self.proc_at(self.ready@[k].0 as int).unwrap().is_zombie by {
                let x = self.ready@[k];
                assert(ok.has_task(x.0 as int, x.1 as int));
                assert(ok.has_proc(x.0 as int));
                assert(x.0 != c);
            }
            assert forall|q: int, u: int|
                #[trigger] self.has_task(q, u) implies self.task_at(q, u).unwrap().priority >= 1 by {
                if q != c {
                    assert(ok.has_task(q, u));
                }
            }
            assert(ok.has_task(p as int, t as int));
            assert(self.has_proc(crate::task::INIT_PID as int));
            assert(self.proc_at(crate::task::INIT_PID as int).unwrap().parent.is_none());
            assert(self.pids.wf());
            assert(self.pids.spec_current() <= self.procs@.len());
            assert(self.procs@.len() < isize::MAX);
            assert(self.tree_consistent());
            assert(self.sched_consistent());
            assert(self.wf());
        }
        let ghost mid = *self;
        self.add_task(child_pid, 0);
        proof {
            assert(self.task_at(child_pid as int, 0) == Some(crate::task::TaskControlBlock { status: TaskStatus::Ready, ..mid.task_at(child_pid as int, 0).unwrap() }));
            assert(self.has_proc(child_pid as int));
            assert(mid.has_proc(p as int));
            assert(self.has_proc(p as int));
            assert(self.children_of(child_pid as int) == mid.children_of(child_pid as int));
            assert(self.task_at(child_pid as int, 0).unwrap().trap_cx == mid.task_at(child_pid as int, 0).unwrap().trap_cx);
            assert(self.proc_at(p as int) == mid.proc_at(p as int));
            assert forall|q: int| q != child_pid && q != p implies #[trigger] self.proc_at(q) == old(self).proc_at(q) by {
                assert(self.proc_at(q) == mid.proc_at(q));
                assert(mid.proc_at(q) == ok.proc_at(q));
            }
            assert(self.children_of(p as int) == mid.children_of(p as int));
        }
        child_pid
    }
}

} // verus!

verus! {

impl Kernel {
    /// Drops from the ready queue every task of process `p`, or only thread
    /// `tid` of it when one is given.
    pub(crate) fn dequeue_proc(&mut self, p: usize, tid: Option<usize>)
        requires
            old(self).wf(),
        ensures
            final(self).wf(),
            final(self).procs == old(self).procs,
            final(self).pids == old(self).pids,
            final(self).current == old(self).current,
            forall|k: int| 0 <= k < final(self).ready@.len() ==> !dropped(#[trigger] final(self).ready@[k], p, tid),
            forall|e: (usize, usize)| !dropped(e, p, tid) && old(self).ready@.contains(e) ==> #[trigger] final(self).ready@.contains(e),
            forall|e: (usize, usize)| #[trigger] final(self).ready@.contains(e) ==> old(self).ready@.contains(e),
    {
        let ghost ok = *self;
        let mut kept: Vec<(usize, usize)> = Vec::new();
        let mut i: usize = 0;
        while i < self.ready.len()
            invariant
                *self == ok,
                ok.wf(),
                i <= ok.ready@.len(),
                kept@.no_duplicates(),
                forall|k: int| 0 <= k < kept@.len() ==> !dropped(#[trigger] kept@[k], p, tid),
                forall|k: int| 0 <= k < kept@.len() ==> ok.ready@.subrange(0, i as int).contains(#[trigger] kept@[k]),
                forall|e: (usize, usize)| !dropped(e, p, tid) && ok.ready@.subrange(0, i as int).contains(e) ==> #[trigger] kept@.contains(e),
            decreases ok.ready@.len() - i,
        {
            let e = self.ready[i];
            proof {
                assert forall|k: int| 0 <= k < kept@.len() implies kept@[k] != e by {
                    let j = ok.ready@.subrange(0, i as int).index_of(kept@[k]);
                    assert(ok.ready@[j] == kept@[k]);
                    assert(ok.ready@.no_duplicates());
                }
            }
            let ghost old_kept = kept@;
            let drop_it = e.0 == p && match tid {
                Some(t) => e.1 == t,
                None => true,
            };
            if !drop_it {
                kept.push(e);
            }
            proof {
                assert(ok.ready@.subrange(0, i + 1) =~= ok.ready@.subrange(0, i as int).push(e));
                assert forall|k: int| 0 <= k < kept@.len() implies ok.ready@.subrange(0, i + 1).contains(#[trigger] kept@[k]) by {
                    if k < old_kept.len() {
                        assert(kept@[k] == old_kept[k]);
                        let j = ok.ready@.subrange(0, i as int).index_of(old_kept[k]);
                        assert(ok.ready@.subrange(0, i + 1)[j] == old_kept[k]);
                    } else {
                        assert(ok.ready@.subrange(0, i + 1)[i as int] == e);
                    }
                }
                assert forall|x: (usize, usize)| !dropped(x, p, tid) && ok.ready@.subrange(0, i + 1).contains(x) implies #[trigger] kept@.contains(x) by {
                    let j = ok.ready@.subrange(0, i + 1).index_of(x);
                    if j < i {
                        assert(ok.ready@.subrange(0, i as int)[j] == x);
                        assert(ok.ready@.subrange(0, i as int).contains(x));
                        assert(old_kept.contains(x));
                        let m = old_kept.index_of(x);
                        assert(kept@[m] == x);
                    } else {
                        assert(kept@[kept@.len() - 1] == x);
                    }
                }
                assert(kept@.no_duplicates()) by {
                    assert forall|a: int, b: int| 0 <= a < b < kept@.len() implies kept@[a] != kept@[b] by {
                        if b == old_kept.len() {
                            assert(kept@[a] == old_kept[a]);
                        }
                    }
                }
            }
            i = i + 1;
        }
        self.ready = kept;
        proof {
            assert(ok.ready@.subrange(0, ok.ready@.len() as int) =~= ok.ready@);
            assert forall|x: (usize, usize)| #[trigger] self.ready@.contains(x) implies ok.ready@.contains(x) by {
                let j = self.ready@.index_of(x);
                let jj = ok.ready@.subrange(0, ok.ready@.len() as int).index_of(x);
            }
            ok.lemma_same_procs_shape(self);
            assert forall|k: int|
                0 <= k < self.ready@.len() implies self.has_task(
                    #[trigger] self.ready@[k].0 as int,
                    self.ready@[k].1 as int,
                ) && self.status_of(self.ready@[k].0 as int, self.ready@[k].1 as int)
                    == TaskStatus::Ready && !self.proc_at(self.ready@[k].0 as int).unwrap().is_zombie by {
                let x = self.ready@[k];
                let j = ok.ready@.index_of(x);
                assert(ok.ready@[j] == x);
                assert(self.task_at(x.0 as int, x.1 as int) == ok.task_at(x.0 as int, x.1 as int));
            }
            assert forall|q: int, t: int|
                #[trigger] self.has_task(q, t) implies self.task_at(q, t).unwrap().priority >= 1 by {
                assert(self.task_at(q, t) == ok.task_at(q, t));
            }
            ok.lemma_same_shape_wf(self);
        }
    }
}

} // verus!

verus! {

impl Kernel {
    /// Hands the children of `p` to init: each names init as its parent and
    /// init lists them after its own, in order; `p` keeps no children.
    fn reparent_children(&mut self, p: usize)
        requires
            old(self).wf(),
            old(self).has_proc(p as int),
            p != crate::task::INIT_PID,
        ensures
            final(self).wf(),
            final(self).ready == old(self).ready,
            final(self).current == old(self).current,
            final(self).pids == old(self).pids,
            final(self).children_of(p as int).len() == 0,
            final(self).children_of(crate::task::INIT_PID as int) == old(self).children_of(
                crate::task::INIT_PID as int,
            ) + old(self).children_of(p as int),
            forall|c: usize| #[trigger] old(self).children_of(p as int).contains(c) ==> final(self).has_parent(c, crate::task::INIT_PID),
            forall|q: int| #[trigger] final(self).has_proc(q) == old(self).has_proc(q),
            forall|q: int, t: int| #[trigger] final(self).task_at(q, t) == old(self).task_at(q, t),
            forall|q: int|
                #[trigger] final(self).has_proc(q) ==> final(self).proc_at(q).unwrap().is_zombie == old(self).proc_at(q).unwrap().is_zombie
                    && final(self).proc_at(q).unwrap().exit_code == old(self).proc_at(q).unwrap().exit_code
                    && final(self).proc_at(q).unwrap().pid == old(self).proc_at(q).unwrap().pid,
    {
        let ghost ok = *self;
        let init = crate::task::INIT_PID;
        proof {
            assert(self.has_proc(p as int));
        }
        let kids = self.procs[p].as_ref().unwrap().children.clone();
        assert(kids@ =~= ok.children_of(p as int));
        let mut i: usize = 0;
        while i < kids.len()
            invariant
                ok.wf(),
                init == crate::task::INIT_PID,
                ok.has_proc(p as int),
                p != init,
                kids@ == ok.children_of(p as int),
                i <= kids@.len(),
                self.procs@.len() == ok.procs@.len(),
                self.pids == ok.pids,
                self.ready == ok.ready,
                self.current == ok.current,
                forall|q: int| #[trigger] self.has_proc(q) == ok.has_proc(q),
                forall|q: int|
                    #[trigger] self.has_proc(q) ==> {
                        let np = self.proc_at(q).unwrap();
                        let op = ok.proc_at(q).unwrap();
                        &&& np.pid == op.pid
                        &&& np.is_zombie == op.is_zombie
                        &&& np.exit_code == op.exit_code
                        &&& np.tasks == op.tasks
                        &&& np.sync == op.sync
                        &&& np.parent == if kids@.subrange(0, i as int).contains(q as usize) {
                            Some(init)
                        } else {
                            op.parent
                        }
                        &&& np.children@ == if q == init as int {
                            op.children@ + kids@.subrange(0, i as int)
                        } else {
                            op.children@
                        }
                    },
            decreases kids@.len() - i,
        {
            let c = kids[i];
            let ghost before = *self;
            proof {
                assert(kids@.contains(c));
                assert(ok.is_child(p, c));
                assert(ok.has_parent(c, p));
                assert(self.has_proc(c as int));
                assert(ok.has_proc(init as int));
                assert(ok.proc_at(init as int).unwrap().parent.is_none());
                assert(c != init);
                assert(self.has_proc(init as int));
            }
            let mut cp = crate::task::take_slot(&mut self.procs, c).unwrap();
            cp.parent = Some(init);
            self.procs.set(c, Some(cp));
            let mut ip = crate::task::take_slot(&mut self.procs, init).unwrap();
            ip.children.push(c);
            self.procs.set(init, Some(ip));
            proof {
                assert(kids@.subrange(0, i + 1) =~= kids@.subrange(0, i as int).push(c));
                assert forall|q: int| #[trigger] self.has_proc(q) == ok.has_proc(q) by {
                    assert(before.has_proc(q) == ok.has_proc(q));
                    if q == c as int || q == init as int {
                        assert(before.has_proc(q));
                    } else {
                        assert(self.proc_at(q) == before.proc_at(q));
                    }
                }
                assert forall|q: int| #[trigger] self.has_proc(q) implies {
                    let np = self.proc_at(q).unwrap();
                    let op = ok.proc_at(q).unwrap();
                    &&& np.pid == op.pid
                    &&& np.is_zombie == op.is_zombie
                    &&& np.exit_code == op.exit_code
                    &&& np.tasks == op.tasks
                    &&& np.sync == op.sync
                    &&& np.parent == if kids@.subrange(0, i + 1).contains(q as usize) {
                        Some(init)
                    } else {
                        op.parent
                    }
                    &&& np.children@ == if q == init as int {
                        op.children@ + kids@.subrange(0, i + 1)
                    } else {
                        op.children@
                    }
                } by {
                    assert(before.has_proc(q));
                    assert(kids@.subrange(0, i + 1).contains(q as usize) == (kids@.subrange(0, i as int).contains(q as usize) || q == c as int)) by {
                        if kids@.subrange(0, i as int).contains(q as usize) {
                            let j = kids@.subrange(0, i as int).index_of(q as usize);
                            assert(kids@.subrange(0, i + 1)[j] == q as usize);
                        }
                        if q == c as int {
                            assert(kids@.subrange(0, i + 1)[i as int] == c);
                        }
                        if kids@.subrange(0, i + 1).contains(q as usize) {
                            let j = kids@.subrange(0, i + 1).index_of(q as usize);
                            if j < i {
                                assert(kids@.subrange(0, i as int)[j] == q as usize);
                            }
                        }
                    }
                    if q == init as int {
                        assert(ok.proc_at(q).unwrap().children@ + kids@.subrange(0, i + 1) =~= (ok.proc_at(q).unwrap().children@ + kids@.subrange(0, i as int)).push(c));
                    }
                }
            }
            i = i + 1;
        }
        assert(self.has_proc(p as int));
        let ghost after_loop = *self;
        let mut pp = crate::task::take_slot(&mut self.procs, p).unwrap();
        pp.children = Vec::new();
        self.procs.set(p, Some(pp));
        proof {
            assert forall|q: int| q != p as int implies #[trigger] self.proc_at(q) == after_loop.proc_at(q) by {}
            let kp = kids@;
            let ic = ok.children_of(init as int);
            assert(kids@.subrange(0, kids@.len() as int) =~= kids@);
            assert forall|q: int| #[trigger] self.has_proc(q) == ok.has_proc(q) by {
                assert(ok.has_proc(p as int));
                assert(after_loop.has_proc(q) == ok.has_proc(q));
            }
            assert forall|q: int| #[trigger] self.has_proc(q) implies {
                let np = self.proc_at(q).unwrap();
                let op = ok.proc_at(q).unwrap();
                &&& np.pid == op.pid
                &&& np.is_zombie == op.is_zombie
                &&& np.exit_code == op.exit_code
                &&& np.tasks == op.tasks
                &&& np.sync == op.sync
                &&& np.parent == if kp.contains(q as usize) { Some(init) } else { op.parent }
                &&& np.children@ == if q == init as int { ic + kp } else if q == p as int { Seq::empty() } else { op.children@ }
            } by {
                assert(after_loop.has_proc(q));
                if q == p as int {
                    assert(!kp.contains(p)) by {
                        if kp.contains(p) {
                            assert(ok.is_child(p, p));
                            assert(ok.has_parent(p, p));
                        }
                    }
                }
            }
            assert forall|c: usize| #[trigger] kp.contains(c) implies ok.has_parent(c, p) && c != init && !ic.contains(c) by {
                assert(ok.is_child(p, c));
                if ic.contains(c) {
                    assert(ok.is_child(init, c));
                    assert(ok.has_parent(c, init));
                }
            }
            assert forall|q: int, t: int| #[trigger] self.task_at(q, t) == ok.task_at(q, t) by {
                if self.has_proc(q) {
                    assert(ok.has_proc(q));
                }
            }
            assert forall|q: int, t: int| #[trigger] self.has_task(q, t) == ok.has_task(q, t) by {
                assert(self.task_at(q, t) == ok.task_at(q, t));
            }
            assert forall|a: usize, x: usize| self.has_parent(x, a) <==> self.is_child(a, x) by {
                assert(ok.has_parent(x, a) == ok.is_child(a, x));
                if self.has_proc(x as int) {
                    assert(ok.has_proc(x as int));
                }
                if self.has_proc(a as int) {
                    assert(ok.has_proc(a as int));
                }
                if kp.contains(x) {
                    assert(ok.has_parent(x, p));
                    if a == init {
                        assert((ic + kp)[ic.len() + kp.index_of(x)] == x);
                    } else if a != p {
                        assert(!ok.is_child(a, x));
                    }
                } else {
                    if a == init {
                        assert((ic + kp).contains(x) == ic.contains(x)) by {
                            if (ic + kp).contains(x) {
                                let j = (ic + kp).index_of(x);
                                if j >= ic.len() {
                                    assert(kp[j - ic.len()] == x);
                                }
                            }
                            if ic.contains(x) {
                                let j = ic.index_of(x);
                                assert((ic + kp)[j] == x);
                            }
                        }
                    } else if a == p {
                        assert(!ok.is_child(p, x));
                    }
                }
            }
            assert(self.tree_consistent());
            assert forall|pid: int| #[trigger] self.has_proc(pid) implies {
                let pr = self.proc_at(pid).unwrap();
                &&& pr.pid == pid
                &&& pr.parent != Some(pid as usize)
                &&& pr.children@.no_duplicates()
                &&& pr.is_zombie ==> pr.children@.len() == 0
                &&& pr.sync.wf()
                &&& pr.tasks@.len() < isize::MAX
                &&& forall|t: int|
                    0 <= t < pr.tasks@.len() && (#[trigger] pr.tasks@[t]).is_some() ==> pr.tasks@[t].unwrap().tid == t
            } by {
                assert(ok.has_proc(pid));
                if pid == init as int {

                    assert((ic + kp).no_duplicates()) by {
                        assert forall|i: int, j: int| 0 <= i < j < (ic + kp).len() implies (ic + kp)[i] != (ic + kp)[j] by {
                            if i < ic.len() && j >= ic.len() {
                                assert(kp.contains(kp[j - ic.len()]));
                                assert(ic.contains(ic[i]));
                            }
                        }
                    }
                    assert(ok.proc_at(init as int).unwrap().is_zombie ==> kp.len() == 0);
                }
            }
            assert forall|id: usize| #[trigger] self.pids.live().contains(id) <==> self.has_proc(id as int) by {
                assert(ok.pids.live().contains(id) <==> ok.has_proc(id as int));
            }
            assert forall|k: int|
                0 <= k < self.ready@.len() implies self.has_task(
                    #[trigger] self.ready@[k].0 as int,
                    self.ready@[k].1 as int,
                ) && self.status_of(self.ready@[k].0 as int, self.ready@[k].1 as int)
                    == TaskStatus::Ready && !self.proc_at(self.ready@[k].0 as int).unwrap().is_zombie by {
                let x = self.ready@[k];
                assert(ok.has_task(x.0 as int, x.1 as int));
                assert(ok.has_proc(x.0 as int));
                assert(self.has_proc(x.0 as int));
            }
            if let Some(cur) = self.current {
                assert(ok.has_task(cur.0 as int, cur.1 as int));
                assert(ok.has_proc(cur.0 as int));
                assert(self.has_proc(cur.0 as int));
            }
            assert forall|q: int, t: int|
                #[trigger] self.has_task(q, t) implies self.task_at(q, t).unwrap().priority >= 1 by {
                assert(ok.has_task(q, t));
            }
            assert(self.has_proc(init as int));
            assert(self.children_of(init as int) == ic + kp);
            assert forall|c: usize| #[trigger] kp.contains(c) implies self.has_parent(c, init) by {
                assert(ok.has_parent(c, p));
                assert(ok.has_proc(c as int));
                assert(self.has_proc(c as int));
            }
        }
    }
}

} // verus!

verus! {

impl Kernel {
    /// Marks a process with no children, no queued task and no running task
    /// as a zombie that exited with `code`.
    fn mark_zombie(&mut self, p: usize, code: i32)
        requires
            old(self).wf(),
            old(self).has_proc(p as int),
            p != crate::task::INIT_PID,
            old(self).children_of(p as int).len() == 0,
            forall|k: int| 0 <= k < old(self).ready@.len() ==> (#[trigger] old(self).ready@[k]).0 != p,
            old(self).current.is_none(),
        ensures
            final(self).wf(),
            final(self).ready == old(self).ready,
            final(self).current.is_none(),
            final(self).is_zombie_proc(p as int),
            final(self).proc_at(p as int).unwrap().exit_code == code,
            final(self).children_of(p as int).len() == 0,
            forall|q: int| #[trigger] final(self).has_proc(q) == old(self).has_proc(q),
            forall|q: int| q != p ==> #[trigger] final(self).proc_at(q) == old(self).proc_at(q),
            forall|q: int, t: int| #[trigger] final(self).task_at(q, t) == old(self).task_at(q, t),
    {
        let ghost ok = *self;
        let mut pp = crate::task::take_slot(&mut self.procs, p).unwrap();
        pp.is_zombie = true;
        pp.exit_code = code;
        self.procs.set(p, Some(pp));
        proof {
            assert forall|q: int| q != p implies #[trigger] self.proc_at(q) == ok.proc_at(q) by {}
            assert forall|q: int| #[trigger] self.has_proc(q) == ok.has_proc(q) by {}
            assert forall|q: int, t: int| #[trigger] self.task_at(q, t) == ok.task_at(q, t) by {}
            assert forall|q: int, t: int| #[trigger] self.has_task(q, t) == ok.has_task(q, t) by {}
            assert forall|pid: int| #[trigger] self.has_proc(pid) implies {
                let pr = self.proc_at(pid).unwrap();
                &&& pr.pid == pid
                &&& pr.parent != Some(pid as usize)
                &&& pr.children@.no_duplicates()
                &&& pr.is_zombie ==> pr.children@.len() == 0
                &&& pr.sync.wf()
                &&& pr.tasks@.len() < isize::MAX
                &&& forall|t: int|
                    0 <= t < pr.tasks@.len() && (#[trigger] pr.tasks@[t]).is_some() ==> pr.tasks@[t].unwrap().tid == t
            } by {
                assert(ok.has_proc(pid));
            }
            assert forall|id: usize| #[trigger] self.pids.live().contains(id) <==> self.has_proc(id as int) by {
                assert(ok.pids.live().contains(id) <==> ok.has_proc(id as int));
            }
            assert forall|a: usize, x: usize| self.has_parent(x, a) <==> self.is_child(a, x) by {
                assert(ok.has_parent(x, a) == ok.is_child(a, x));
                if x != p {
                    assert(self.proc_at(x as int) == ok.proc_at(x as int));
                }
                if a != p {
                    assert(self.proc_at(a as int) == ok.proc_at(a as int));
                }
            }
            assert forall|k: int|
                0 <= k < self.ready@.len() implies self.has_task(
                    #[trigger] self.ready@[k].0 as int,
                    self.ready@[k].1 as int,
                ) && self.status_of(self.ready@[k].0 as int, self.ready@[k].1 as int)
                    == TaskStatus::Ready && !self.proc_at(self.ready@[k].0 as int).unwrap().is_zombie by {
                let x = self.ready@[k];
                assert(ok.has_task(x.0 as int, x.1 as int));
                assert(x.0 != p);
                assert(self.proc_at(x.0 as int) == ok.proc_at(x.0 as int));
            }
            assert forall|q: int, t: int|
                #[trigger] self.has_task(q, t) implies self.task_at(q, t).unwrap().priority >= 1 by {
                assert(ok.has_task(q, t));
            }
            assert(self.proc_at(crate::task::INIT_PID as int) == ok.proc_at(crate::task::INIT_PID as int));
        }
    }

    /// The running task exits with `exit_code` and leaves the hart. When it
    /// is the main thread (tid 0), its whole process exits: every thread of
    /// it is retired and dequeued, its children go to init, and it becomes a
    /// zombie holding the exit code until its parent reaps it.
    pub fn exit_current(&mut self, exit_code: i32) -> (r: (usize, usize))
        requires
            old(self).wf(),
            old(self).current.is_some(),
            old(self).current.unwrap().1 == 0 ==> old(self).current.unwrap().0 != crate::task::INIT_PID,
        ensures
            final(self).wf(),
            final(self).current.is_none(),
            r == old(self).current.unwrap(),
            final(self).has_task(r.0 as int, r.1 as int),
            final(self).status_of(r.0 as int, r.1 as int) == TaskStatus::Zombie,
            final(self).task_at(r.0 as int, r.1 as int).unwrap().exit_code == Some(exit_code),
            r.1 != 0 ==> final(self).ready == old(self).ready && !final(self).is_zombie_proc(r.0 as int),
            r.1 == 0 ==> {
                &&& final(self).is_zombie_proc(r.0 as int)
                &&& final(self).proc_at(r.0 as int).unwrap().exit_code == exit_code
                &&& final(self).children_of(r.0 as int).len() == 0
                &&& final(self).children_of(crate::task::INIT_PID as int) == old(self).children_of(
                    crate::task::INIT_PID as int,
                ) + old(self).children_of(r.0 as int)
                &&& forall|c: usize| #[trigger] old(self).children_of(r.0 as int).contains(c) ==> final(self).has_parent(c, crate::task::INIT_PID)
                &&& forall|k: int| 0 <= k < final(self).ready@.len() ==> (#[trigger] final(self).ready@[k]).0 != r.0
            },
            forall|q: int| #[trigger] final(self).has_proc(q) == old(self).has_proc(q),
    {
        let (p, t) = self.current.unwrap();
        proof {
            assert(self.has_task(p as int, t as int));
            assert(self.has_proc(p as int));
            if self.ready@.contains((p, t)) {
                let k = self.ready@.index_of((p, t));
                assert(self.has_task(self.ready@[k].0 as int, self.ready@[k].1 as int));
            }
        }
        let ghost ok = *self;
        self.current = None;
        proof {
            ok.lemma_same_procs_shape(self);
            assert forall|k: int|
                0 <= k < self.ready@.len() implies self.has_task(
                    #[trigger] self.ready@[k].0 as int,
                    self.ready@[k].1 as int,
                ) && self.status_of(self.ready@[k].0 as int, self.ready@[k].1 as int)
                    == TaskStatus::Ready && !self.proc_at(self.ready@[k].0 as int).unwrap().is_zombie by {
                assert(ok.has_task(ok.ready@[k].0 as int, ok.ready@[k].1 as int));
            }
            assert forall|q: int, u: int|
                #[trigger] self.has_task(q, u) implies self.task_at(q, u).unwrap().priority >= 1 by {
                assert(ok.has_task(q, u));
            }
            ok.lemma_same_shape_wf(self);
        }
        if t != 0 {
            self.finish_task(p, t, Some(exit_code));
            proof {
                assert(self.has_proc(p as int));
                assert forall|q: int| #[trigger] self.has_proc(q) == ok.has_proc(q) by {
                    assert(self.has_proc(q) == ok.has_proc(q));
                }
            }
            return (p, t);
        }
        self.dequeue_proc(p, None);
        let ghost s1 = *self;
        let n = self.procs[p].as_ref().unwrap().tasks.len();
        let mut i: usize = 0;
        while i < n
            invariant
                self.wf(),
                s1.wf(),
                self.current.is_none(),
                self.ready == s1.ready,
                s1.same_shape(self),
                s1.has_proc(p as int),
                n == s1.proc_at(p as int).unwrap().tasks@.len(),
                i <= n,
                t == 0,
                forall|k: int| 0 <= k < self.ready@.len() ==> (#[trigger] self.ready@[k]).0 != p,
                forall|q: int| #[trigger] self.has_proc(q) ==> self.proc_at(q).unwrap().exit_code == s1.proc_at(q).unwrap().exit_code,
                i > 0 && s1.has_task(p as int, 0) ==> self.status_of(p as int, 0) == TaskStatus::Zombie
                    && self.task_at(p as int, 0).unwrap().exit_code == Some(exit_code),
            decreases n - i,
        {
            proof {
                assert(self.has_proc(p as int));
                assert(self.proc_at(p as int).unwrap().tasks@.len() == n);
            }
            let has = self.procs[p].as_ref().unwrap().tasks[i].is_some();
            if has {
                proof {
                    assert(self.has_task(p as int, i as int));
                    if self.ready@.contains((p, i)) {
                        let k = self.ready@.index_of((p, i));
                    }
                }
                let code = if i == 0 { Some(exit_code) } else { None };
                let ghost before = *self;
                self.finish_task(p, i, code);
                proof {
                    before.lemma_same_shape_trans_from(s1, self);
                    assert forall|q: int| #[trigger] self.has_proc(q) implies self.proc_at(q).unwrap().exit_code == s1.proc_at(q).unwrap().exit_code by {
                        assert(before.has_proc(q));
                    }
                    if i > 0 && s1.has_task(p as int, 0) {
                        assert(self.task_at(p as int, 0) == before.task_at(p as int, 0));
                    }
                    if i == 0 {
                        assert(self.task_at(p as int, 0) == Some(crate::task::TaskControlBlock {
                            status: TaskStatus::Zombie,
                            exit_code: Some(exit_code),
                            ..before.task_at(p as int, 0).unwrap()
                        }));
                    }
                }
            } else {
                proof {
                    assert(!self.has_task(p as int, i as int));
                    assert(s1.has_task(p as int, i as int) == self.has_task(p as int, i as int));
                }
            }
            i = i + 1;
        }
        proof {
            assert(s1.task_at(p as int, 0) == ok.task_at(p as int, 0));
            assert(s1.has_task(p as int, 0));
            assert(self.has_proc(p as int));
            assert(self.children_of(p as int) == ok.children_of(p as int));
        }
        let ghost s2 = *self;
        self.reparent_children(p);
        let ghost s3 = *self;
        self.mark_zombie(p, exit_code);
        proof {
            assert(self.task_at(p as int, 0) == s3.task_at(p as int, 0));
            assert(s3.task_at(p as int, 0) == s2.task_at(p as int, 0));
            assert(s2.has_task(p as int, 0));
            assert(s3.children_of(crate::task::INIT_PID as int) == self.children_of(crate::task::INIT_PID as int));
            assert(s2.children_of(crate::task::INIT_PID as int) == ok.children_of(crate::task::INIT_PID as int)) by {
                assert(s1.has_proc(crate::task::INIT_PID as int));
            }
            assert forall|c: usize| #[trigger] ok.children_of(p as int).contains(c) implies self.has_parent(c, crate::task::INIT_PID) by {
                assert(s2.children_of(p as int).contains(c));
                assert(s3.has_parent(c, crate::task::INIT_PID));
                assert(ok.is_child(p, c));
                assert(ok.has_parent(c, p));
                assert(c != p);
                assert(self.proc_at(c as int) == s3.proc_at(c as int));
            }
            assert forall|q: int| #[trigger] self.has_proc(q) == ok.has_proc(q) by {
                assert(s3.has_proc(q) == s2.has_proc(q));
                assert(s2.has_proc(q) == s1.has_proc(q));
                assert(s1.has_proc(q) == ok.has_proc(q));
            }
        }
        (p, t)
    }
}

} // verus!
