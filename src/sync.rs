//! Mutexes, semaphores and condition variables, as state machines over
//! queues of waiting thread ids. Blocking and waking are left to the caller:
//! each operation says whether the caller blocks and whom it wakes.
use crate::banker::ResourceTable;
use vstd::prelude::*;

verus! {

/// What a lock or down operation did to its caller.
#[derive(Clone, Copy, PartialEq, Eq, Structural, Debug)]
pub enum Acquire {
    /// The caller holds the resource and goes on.
    Acquired,
    /// The caller waits in the primitive's queue until woken.
    Blocked,
    /// The caller found the lock taken and must yield and try again.
    Retry,
}

/// A lock that its waiters poll: a taken lock sends the caller away to retry.
#[derive(Clone, Copy, PartialEq, Eq, Structural, Debug)]
pub struct MutexSpin {
    pub locked: bool,
}

impl MutexSpin {
    pub fn new() -> (r: Self)
        ensures
            !r.locked,
    {
        Self { locked: false }
    }

    pub fn lock(&mut self) -> (r: Acquire)
        ensures
            final(self).locked,
            r == if old(self).locked {
                Acquire::Retry
            } else {
                Acquire::Acquired
            },
    {
        if self.locked {
            Acquire::Retry
        } else {
            self.locked = true;
            Acquire::Acquired
        }
    }

    pub fn unlock(&mut self)
        ensures
            !final(self).locked,
    {
        self.locked = false;
    }
}

/// A lock whose waiters sleep in a FIFO queue; unlocking hands the lock to
/// the oldest waiter.
pub struct MutexBlocking {
    pub locked: bool,
    pub wait_queue: Vec<usize>,
}

impl MutexBlocking {
    /// Nobody waits on a free lock.
    pub open spec fn wf(&self) -> bool {
        !self.locked ==> self.wait_queue@.len() == 0
    }

    pub fn new() -> (r: Self)
        ensures
            r.wf(),
            !r.locked,
            r.wait_queue@ == Seq::<usize>::empty(),
    {
        Self { locked: false, wait_queue: Vec::new() }
    }

    /// Takes a free lock, or queues `tid` behind the earlier waiters.
    pub fn lock(&mut self, tid: usize) -> (r: Acquire)
        requires
            old(self).wf(),
        ensures
            final(self).wf(),
            final(self).locked,
            old(self).locked ==> r == Acquire::Blocked && final(self).wait_queue@ == old(self).wait_queue@.push(tid),
            !old(self).locked ==> r == Acquire::Acquired && final(self).wait_queue@ == old(self).wait_queue@,
    {
        if self.locked {
            self.wait_queue.push(tid);
            Acquire::Blocked
        } else {
            self.locked = true;
            Acquire::Acquired
        }
    }

    /// Hands the lock to the oldest waiter, whose id is returned, or frees it.
    pub fn unlock(&mut self) -> (r: Option<usize>)
        requires
            old(self).wf(),
            old(self).locked,
        ensures
            final(self).wf(),
            old(self).wait_queue@.len() > 0 ==> r == Some(old(self).wait_queue@[0])
                && final(self).locked && final(self).wait_queue@ == old(self).wait_queue@.drop_first(),
            old(self).wait_queue@.len() == 0 ==> r.is_none() && !final(self).locked
                && final(self).wait_queue@.len() == 0,
    {
        if self.wait_queue.len() > 0 {
            let t = self.wait_queue.remove(0);
            assert(self.wait_queue@ =~= old(self).wait_queue@.drop_first());
            Some(t)
        } else {
            self.locked = false;
            None
        }
    }
}

/// A mutex of either kind, as a process's mutex table holds it.
pub enum MutexKind {
    Spin(MutexSpin),
    Blocking(MutexBlocking),
}

impl MutexKind {
    pub open spec fn wf(&self) -> bool {
        match self {
            MutexKind::Spin(_) => true,
            MutexKind::Blocking(m) => m.wf(),
        }
    }

    pub open spec fn is_locked(&self) -> bool {
        match self {
            MutexKind::Spin(m) => m.locked,
            MutexKind::Blocking(m) => m.locked,
        }
    }
}

/// A counting semaphore. A negative count is the number of waiters.
pub struct Semaphore {
    pub count: isize,
    pub wait_queue: Vec<usize>,
}

impl Semaphore {
    pub open spec fn wf(&self) -> bool {
        &&& self.count >= 0 ==> self.wait_queue@.len() == 0
        &&& self.count < 0 ==> self.wait_queue@.len() == -self.count
    }

    /// A semaphore with `res_count` free units.
    pub fn new(res_count: usize) -> (r: Self)
        requires
            res_count <= isize::MAX,
        ensures
            r.wf(),
            r.count == res_count,
            r.wait_queue@ == Seq::<usize>::empty(),
    {
        Self { count: res_count as isize, wait_queue: Vec::new() }
    }

    /// Releases a unit; if a thread was waiting, the oldest is woken and returned.
    pub fn up(&mut self) -> (r: Option<usize>)
        requires
            old(self).wf(),
            old(self).count < isize::MAX,
        ensures
            final(self).wf(),
            final(self).count == old(self).count + 1,
            old(self).count < 0 ==> r == Some(old(self).wait_queue@[0]) && final(self).wait_queue@ == old(self).wait_queue@.drop_first(),
            old(self).count >= 0 ==> r.is_none() && final(self).wait_queue@ == old(self).wait_queue@,
    {
        self.count = self.count + 1;
        if self.count <= 0 {
            let t = self.wait_queue.remove(0);
            assert(self.wait_queue@ =~= old(self).wait_queue@.drop_first());
            Some(t)
        } else {
            None
        }
    }

    /// Takes a unit, or queues `tid` when none is free.
    pub fn down(&mut self, tid: usize) -> (r: Acquire)
        requires
            old(self).wf(),
            old(self).count > isize::MIN + 1,
        ensures
            final(self).wf(),
            final(self).count == old(self).count - 1,
            old(self).count > 0 ==> r == Acquire::Acquired && final(self).wait_queue@ == old(self).wait_queue@,
            old(self).count <= 0 ==> r == Acquire::Blocked && final(self).wait_queue@ == old(self).wait_queue@.push(tid),
    {
        self.count = self.count - 1;
        if self.count < 0 {
            self.wait_queue.push(tid);
            Acquire::Blocked
        } else {
            Acquire::Acquired
        }
    }
}

/// A condition variable: a FIFO queue of sleeping threads, each with the
/// mutex it must hold again when woken.
pub struct Condvar {
    pub wait_queue: Vec<(usize, usize)>,
}

impl Condvar {
    pub fn new() -> (r: Self)
        ensures
            r.wait_queue@ == Seq::<(usize, usize)>::empty(),
    {
        Self { wait_queue: Vec::new() }
    }

    /// Wakes the oldest waiter, if any, and returns it with its mutex.
    pub fn signal(&mut self) -> (r: Option<(usize, usize)>)
        ensures
            old(self).wait_queue@.len() > 0 ==> r == Some(old(self).wait_queue@[0]) && final(self).wait_queue@ == old(self).wait_queue@.drop_first(),
            old(self).wait_queue@.len() == 0 ==> r.is_none() && final(self).wait_queue@.len() == 0,
    {
        if self.wait_queue.len() > 0 {
            let t = self.wait_queue.remove(0);
            assert(self.wait_queue@ =~= old(self).wait_queue@.drop_first());
            Some(t)
        } else {
            None
        }
    }

    /// Queues `tid` to sleep until signalled, then to take `mutex_id` again.
    pub fn wait(&mut self, tid: usize, mutex_id: usize)
        ensures
            final(self).wait_queue@ == old(self).wait_queue@.push((tid, mutex_id)),
    {
        self.wait_queue.push((tid, mutex_id));
    }
}

/// A process's synchronization objects by id, and the banker's tables for
/// its mutexes and its semaphores.
pub struct SyncState {
    pub mutex_list: Vec<MutexKind>,
    pub semaphore_list: Vec<Semaphore>,
    pub condvar_list: Vec<Condvar>,
    pub deadlock_detection_enabled: bool,
    pub mutex_res: ResourceTable,
    pub sem_res: ResourceTable,
}

impl SyncState {
    pub open spec fn wf(&self) -> bool {
        &&& self.mutex_res.wf()
        &&& self.sem_res.wf()
        &&& self.mutex_list@.len() == self.mutex_res.resources()
        &&& self.semaphore_list@.len() == self.sem_res.resources()
        &&& forall|i: int| 0 <= i < self.mutex_list@.len() ==> (#[trigger] self.mutex_list@[i]).wf()
        &&& forall|i: int| 0 <= i < self.semaphore_list@.len() ==> (#[trigger] self.semaphore_list@[i]).wf()
    }

    pub fn new() -> (r: Self)
        ensures
            r.wf(),
            r.mutex_list@.len() == 0,
            r.semaphore_list@.len() == 0,
            r.condvar_list@.len() == 0,
            !r.deadlock_detection_enabled,
    {
        SyncState {
            mutex_list: Vec::new(),
            semaphore_list: Vec::new(),
            condvar_list: Vec::new(),
            deadlock_detection_enabled: false,
            mutex_res: ResourceTable::new(),
            sem_res: ResourceTable::new(),
        }
    }
}

} // verus!
