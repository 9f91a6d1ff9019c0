//! Recycling allocators of small ids (process ids, kernel-stack slots).
use crate::config::{KERNEL_STACK_SIZE, PAGE_SIZE, TRAMPOLINE};
use vstd::prelude::*;

verus! {

/// Hands out ids from a cursor that only grows, reusing freed ids first.
pub struct RecycleAllocator {
    current: usize,
    recycled: Vec<usize>,
    live: Ghost<Set<usize>>,
}

impl RecycleAllocator {
    /// Ids handed out and not yet given back.
    pub closed spec fn live(&self) -> Set<usize> {
        self.live@
    }

    pub closed spec fn spec_current(&self) -> usize {
        self.current
    }

    pub closed spec fn recycled(&self) -> Seq<usize> {
        self.recycled@
    }

    pub closed spec fn wf(&self) -> bool {
        &&& self.recycled@.no_duplicates()
        &&& forall|k: int| 0 <= k < self.recycled@.len() ==> #[trigger] self.recycled@[k] < self.current
        &&& forall|p: usize|
            #[trigger] self.live@.contains(p) <==> (p < self.current && !self.recycled@.contains(p))
    }

    pub fn new() -> (r: Self)
        ensures
            r.wf(),
            r.live() == Set::<usize>::empty(),
            r.spec_current() == 0,
    {
        Self { current: 0, recycled: Vec::new(), live: Ghost(Set::empty()) }
    }

    /// An id not in use: the last one freed, else the next fresh one.
    pub fn allocate(&mut self) -> (id: usize)
        requires
            old(self).wf(),
            old(self).spec_current() < usize::MAX,
        ensures
            final(self).wf(),
            !old(self).live().contains(id),
            final(self).live() == old(self).live().insert(id),
            old(self).recycled().len() > 0 ==> id == old(self).recycled().last(),
            old(self).recycled().len() == 0 ==> id == old(self).spec_current(),
            final(self).spec_current() >= old(self).spec_current(),
            final(self).spec_current() <= old(self).spec_current() + 1,
            id < final(self).spec_current(),
            old(self).recycled().len() > 0 ==> final(self).spec_current() == old(self).spec_current(),
            old(self).recycled().len() == 0 ==> final(self).spec_current() == old(self).spec_current() + 1,
    {
        if let Some(id) = self.recycled.pop() {
            proof {
                assert(old(self).recycled@.drop_last() =~= self.recycled@);
                assert(!self.recycled@.contains(id)) by {
                    if self.recycled@.contains(id) {
                        let k = self.recycled@.index_of(id);
                        assert(old(self).recycled@[k] == old(self).recycled@[old(self).recycled@.len() - 1]);
                    }
                }
                self.live@ = self.live@.insert(id);
                assert forall|p: usize|
                    #[trigger] self.live@.contains(p) <==> (p < self.current && !self.recycled@.contains(p)) by {
                    if p != id && old(self).recycled@.contains(p) {
                        let k = old(self).recycled@.index_of(p);
                        assert(self.recycled@[k] == p);
                    }
                    if self.recycled@.contains(p) {
                        let k = self.recycled@.index_of(p);
                        assert(old(self).recycled@[k] == p);
                    }
                }
            }
            id
        } else {
            self.current = self.current + 1;
            proof {
                self.live@ = self.live@.insert((self.current - 1) as usize);
            }
            self.current - 1
        }
    }

    /// Gives an id back; it must be in use.
    pub fn dealloc(&mut self, id: usize)
        requires
            old(self).wf(),
            old(self).live().contains(id),
        ensures
            final(self).wf(),
            final(self).live() == old(self).live().remove(id),
            final(self).spec_current() == old(self).spec_current(),
    {
        self.recycled.push(id);
        proof {
            self.live@ = self.live@.remove(id);
            assert forall|p: usize| #[trigger] self.recycled@.contains(p) <==> (old(self).recycled@.contains(p) || p == id) by {
                if old(self).recycled@.contains(p) {
                    let k = old(self).recycled@.index_of(p);
                    assert(self.recycled@[k] == p);
                }
                if self.recycled@.contains(p) && p != id {
                    let k = self.recycled@.index_of(p);
                    assert(old(self).recycled@[k] == p);
                }
                assert(self.recycled@[self.recycled@.len() - 1] == id);
            }
        }
    }
}

/// Bytes a kernel-stack slot takes, its guard page included.
pub open spec fn kstack_slot_size() -> int {
    KERNEL_STACK_SIZE + PAGE_SIZE
}

/// Bottom and top of kernel-stack slot `app_id`: slots go down from the
/// trampoline, a guard page between each two.
pub fn kernel_stack_position(app_id: usize) -> (r: (u64, u64))
    requires
        app_id * kstack_slot_size() + KERNEL_STACK_SIZE <= TRAMPOLINE,
    ensures
        r.1 == TRAMPOLINE - app_id * kstack_slot_size(),
        r.0 == r.1 - KERNEL_STACK_SIZE,
{
    let top = TRAMPOLINE - (app_id as u64) * (KERNEL_STACK_SIZE + PAGE_SIZE);
    let bottom = top - KERNEL_STACK_SIZE;
    (bottom, top)
}

} // verus!
