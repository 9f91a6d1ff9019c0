//! Physical frames: a stack allocator over a contiguous range of page numbers.
use vstd::prelude::*;

verus! {

/// Ownership of one physical frame. Handing it back to the allocator frees
/// the frame; a handle is made only by the allocator.
pub struct FrameTracker {
    ppn: usize,
}

impl FrameTracker {
    pub closed spec fn spec_ppn(&self) -> usize {
        self.ppn
    }

    /// Physical page number of the frame.
    pub fn ppn(&self) -> (r: usize)
        ensures
            r == self.spec_ppn(),
    {
        self.ppn
    }
}

/// Hands out frames `[begin, end)`: recycled ones first (last freed, first
/// reused), then fresh ones from the cursor `current`.
pub struct StackFrameAllocator {
    begin: usize,
    current: usize,
    end: usize,
    recycled: Vec<usize>,
    live: Ghost<Set<usize>>,
}

impl StackFrameAllocator {
    /// Frames held by live handles.
    pub closed spec fn live(&self) -> Set<usize> {
        self.live@
    }

    pub closed spec fn recycled(&self) -> Seq<usize> {
        self.recycled@
    }

    pub closed spec fn spec_begin(&self) -> usize {
        self.begin
    }

    pub closed spec fn spec_current(&self) -> usize {
        self.current
    }

    pub closed spec fn spec_end(&self) -> usize {
        self.end
    }

    /// Number of frames the allocator manages.
    pub open spec fn capacity(&self) -> int {
        self.spec_end() - self.spec_begin()
    }

    /// Frames that can still be handed out.
    pub open spec fn free_count(&self) -> int {
        self.recycled().len() + (self.spec_end() - self.spec_current())
    }

    pub closed spec fn wf(&self) -> bool {
        &&& self.begin <= self.current <= self.end
        &&& self.recycled@.no_duplicates()
        &&& forall|k: int|
            0 <= k < self.recycled@.len() ==> self.begin <= #[trigger] self.recycled@[k]
                < self.current
        &&& forall|p: usize|
            #[trigger] self.live@.contains(p) <==> (self.begin <= p < self.current
                && !self.recycled@.contains(p))
        &&& self.live@.finite()
        &&& self.live@.len() + self.recycled@.len() == self.current - self.begin
    }

    /// An allocator for frames `[l, r)`, none handed out.
    pub fn new(l: usize, r: usize) -> (a: Self)
        requires
            l <= r,
        ensures
            a.wf(),
            a.live() == Set::<usize>::empty(),
            a.recycled() == Seq::<usize>::empty(),
            a.capacity() == r - l,
            a.free_count() == r - l,
            a.spec_begin() == l,
            a.spec_current() == l,
            a.spec_end() == r,
    {
        Self { begin: l, current: l, end: r, recycled: Vec::new(), live: Ghost(Set::empty()) }
    }

    /// A frame, or `None` once every frame is out.
    pub fn allocate(&mut self) -> (r: Option<FrameTracker>)
        requires
            old(self).wf(),
        ensures
            final(self).wf(),
            final(self).capacity() == old(self).capacity(),
            final(self).spec_begin() == old(self).spec_begin(),
            final(self).spec_end() == old(self).spec_end(),
            old(self).free_count() == 0 <==> r.is_none(),
            r.is_none() ==> final(self).live() == old(self).live() && final(self).recycled()
                == old(self).recycled() && final(self).spec_current() == old(self).spec_current(),
            r matches Some(f) ==> {
                &&& !old(self).live().contains(f.spec_ppn())
                &&& f.spec_ppn() < old(self).spec_end()
                &&& final(self).live() == old(self).live().insert(f.spec_ppn())
                &&& final(self).free_count() == old(self).free_count() - 1
                &&& old(self).recycled().len() > 0 ==> f.spec_ppn() == old(self).recycled().last()
                    && final(self).recycled() == old(self).recycled().drop_last()
                &&& old(self).recycled().len() == 0 ==> f.spec_ppn() == old(self).spec_current()
            },
    {
        if let Some(ppn) = self.recycled.pop() {
            proof {
                assert(old(self).recycled@.drop_last() =~= self.recycled@);
                assert(!self.recycled@.contains(ppn)) by {
                    if self.recycled@.contains(ppn) {
                        let k = self.recycled@.index_of(ppn);
                        assert(old(self).recycled@[k] == old(self).recycled@[old(self).recycled@.len() - 1]);
                    }
                }
                assert forall|p: usize| #[trigger] self.recycled@.contains(p) implies old(self).recycled@.contains(p) by {
                    let k = self.recycled@.index_of(p);
                    assert(old(self).recycled@[k] == p);
                }
                self.live@ = self.live@.insert(ppn);
                assert forall|p: usize|
                    #[trigger] self.live@.contains(p) <==> (self.begin <= p < self.current
                        && !self.recycled@.contains(p)) by {
                    if p != ppn && old(self).recycled@.contains(p) {
                        let k = old(self).recycled@.index_of(p);
                        assert(self.recycled@[k] == p);
                    }
                }
            }
            Some(FrameTracker { ppn })
        } else if self.current == self.end {
            None
        } else {
            let ppn = self.current;
            self.current = self.current + 1;
            proof {
                self.live@ = self.live@.insert(ppn);
            }
            Some(FrameTracker { ppn })
        }
    }

    /// Takes a frame back; its handle is consumed.
    pub fn dealloc(&mut self, frame: FrameTracker)
        requires
            old(self).wf(),
            old(self).live().contains(frame.spec_ppn()),
        ensures
            final(self).wf(),
            final(self).capacity() == old(self).capacity(),
            final(self).spec_begin() == old(self).spec_begin(),
            final(self).spec_end() == old(self).spec_end(),
            final(self).live() == old(self).live().remove(frame.spec_ppn()),
            final(self).recycled() == old(self).recycled().push(frame.spec_ppn()),
            final(self).free_count() == old(self).free_count() + 1,
    {
        let ppn = frame.ppn;
        self.recycled.push(ppn);
        proof {
            self.live@ = self.live@.remove(ppn);
            assert forall|p: usize| #[trigger] self.recycled@.contains(p) <==> (old(self).recycled@.contains(p) || p == ppn) by {
                if old(self).recycled@.contains(p) {
                    let k = old(self).recycled@.index_of(p);
                    assert(self.recycled@[k] == p);
                }
                if self.recycled@.contains(p) && p != ppn {
                    let k = self.recycled@.index_of(p);
                    assert(old(self).recycled@[k] == p);
                }
                assert(self.recycled@[self.recycled@.len() - 1] == ppn);
            }
        }
    }

    /// Takes a frame back when it is out (between `begin` and the cursor and
    /// not on the recycled stack), as `dealloc` does; else leaves the
    /// allocator as it is. Returns whether it took the frame.
    pub fn dealloc_checked(&mut self, frame: FrameTracker) -> (r: bool)
        requires
            old(self).wf(),
        ensures
            final(self).wf(),
            final(self).capacity() == old(self).capacity(),
            final(self).spec_begin() == old(self).spec_begin(),
            final(self).spec_end() == old(self).spec_end(),
            r == old(self).live().contains(frame.spec_ppn()),
            r ==> final(self).live() == old(self).live().remove(frame.spec_ppn())
                && final(self).free_count() == old(self).free_count() + 1,
            !r ==> final(self).live() == old(self).live() && final(self).free_count() == old(self).free_count(),
    {
        let ppn = frame.ppn;
        if ppn < self.begin || ppn >= self.current {
            assert(!self.live@.contains(ppn));
            return false;
        }
        let mut i: usize = 0;
        while i < self.recycled.len()
            invariant
                *self == *old(self),
                self.wf(),
                ppn == frame.spec_ppn(),
                self.begin <= ppn < self.current,
                i <= self.recycled@.len(),
                forall|k: int| 0 <= k < i ==> self.recycled@[k] != ppn,
            decreases self.recycled@.len() - i,
        {
            if self.recycled[i] == ppn {
                assert(self.recycled@.contains(ppn));
                assert(!self.live@.contains(ppn));
                return false;
            }
            i = i + 1;
        }
        assert(!self.recycled@.contains(ppn));
        self.dealloc(frame);
        true
    }

    /// Frames still available.
    pub fn free_frames(&self) -> (r: usize)
        requires
            self.wf(),
        ensures
            r == self.free_count(),
    {
        self.recycled.len() + (self.end - self.current)
    }
}

/// Every frame of the range is in exactly one place: held by a live handle,
/// on the recycled stack, or not yet reached by the cursor.
pub proof fn lemma_frames_conserved(a: &StackFrameAllocator)
    requires
        a.wf(),
    ensures
        a.spec_begin() <= a.spec_current() <= a.spec_end(),
        a.free_count() == 0 <==> a.recycled().len() == 0 && a.spec_current() == a.spec_end(),
        a.live().len() + a.free_count() == a.capacity(),
        a.live().disjoint(a.recycled().to_set()),
{
    assert forall|p: usize| a.live().contains(p) implies !a.recycled().to_set().contains(p) by {}
}

} // verus!
