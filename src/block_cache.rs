//! A bounded cache of disk blocks with write-back and FIFO-style eviction.
use crate::config::BLOCK_SZ;
use vstd::prelude::*;

verus! {

/// Blocks the cache holds at most.
pub const BLOCK_CACHE_SIZE: usize = 16;

/// A device that reads and writes whole blocks of `BLOCK_SZ` bytes.
pub trait BlockDevice {
    fn read_block(&self, block_id: usize, buf: &mut Vec<u8>);

    fn write_block(&self, block_id: usize, buf: &Vec<u8>);
}

/// One cached block: its bytes, whether they differ from the disk, and how
/// many users hold it.
pub struct BlockCache {
    pub block_id: usize,
    pub cache: Vec<u8>,
    pub modified: bool,
    pub refs: usize,
}

impl BlockCache {
    /// Loads block `block_id` from `dev`.
    pub fn new<D: BlockDevice>(block_id: usize, dev: &D) -> (r: Self)
        ensures
            r.block_id == block_id,
            !r.modified,
            r.refs == 0,
    {
        let mut cache: Vec<u8> = Vec::new();
        let mut i: usize = 0;
        while i < BLOCK_SZ
            invariant
                i <= BLOCK_SZ,
                cache@.len() == i,
            decreases BLOCK_SZ - i,
        {
            cache.push(0);
            i = i + 1;
        }
        dev.read_block(block_id, &mut cache);
        BlockCache { block_id, cache, modified: false, refs: 0 }
    }

    /// Writes the block back when it was modified.
    pub fn sync<D: BlockDevice>(&mut self, dev: &D)
        ensures
            !final(self).modified,
            final(self).block_id == old(self).block_id,
            final(self).refs == old(self).refs,
            final(self).cache == old(self).cache,
    {
        if self.modified {
            self.modified = false;
            dev.write_block(self.block_id, &self.cache);
        }
    }
}

/// The cache: blocks in the order they were loaded.
pub struct BlockCacheManager {
    pub queue: Vec<BlockCache>,
}

/// Ids of the cached blocks, oldest first.
pub open spec fn ids(q: Seq<BlockCache>) -> Seq<usize> {
    q.map_values(|b: BlockCache| b.block_id)
}

/// Position of the first block in `q` that nobody but the cache holds.
pub open spec fn first_unpinned(q: Seq<BlockCache>, i: int) -> bool {
    &&& 0 <= i < q.len()
    &&& q[i].refs == 0
    &&& forall|j: int| 0 <= j < i ==> (#[trigger] q[j]).refs > 0
}

impl BlockCacheManager {
    pub open spec fn wf(&self) -> bool {
        &&& self.queue@.len() <= BLOCK_CACHE_SIZE
        &&& ids(self.queue@).no_duplicates()
    }

    pub fn new() -> (r: Self)
        ensures
            r.wf(),
            r.queue@.len() == 0,
    {
        BlockCacheManager { queue: Vec::new() }
    }

    /// Position of block `block_id` in the cache, if it is there.
    fn position(&self, block_id: usize) -> (r: Option<usize>)
        ensures
            r matches Some(i) ==> i < self.queue@.len() && self.queue@[i as int].block_id == block_id,
            r.is_none() ==> !ids(self.queue@).contains(block_id),
    {
        let mut i: usize = 0;
        while i < self.queue.len()
            invariant
                i <= self.queue@.len(),
                forall|j: int| 0 <= j < i ==> (#[trigger] self.queue@[j]).block_id != block_id,
            decreases self.queue@.len() - i,
        {
            if self.queue[i].block_id == block_id {
                return Some(i);
            }
            i = i + 1;
        }
        proof {
            if ids(self.queue@).contains(block_id) {
                let j = ids(self.queue@).index_of(block_id);
                assert(self.queue@[j].block_id == block_id);
            }
        }
        None
    }

    /// Position of the oldest block that nobody holds; one must exist.
    fn first_free(&self) -> (r: usize)
        requires
            exists|i: int| 0 <= i < self.queue@.len() && self.queue@[i].refs == 0,
        ensures
            first_unpinned(self.queue@, r as int),
    {
        let ghost w = choose|i: int| 0 <= i < self.queue@.len() && self.queue@[i].refs == 0;
        let mut v: usize = 0;
        while v < self.queue.len()
            invariant
                v <= self.queue@.len(),
                0 <= w < self.queue@.len(),
                self.queue@[w].refs == 0,
                forall|j: int| 0 <= j < v ==> (#[trigger] self.queue@[j]).refs > 0,
            decreases self.queue@.len() - v,
        {
            if self.queue[v].refs == 0 {
                return v;
            }
            v = v + 1;
        }
        assert(self.queue@[w].refs > 0);
        0
    }

    /// Whether block `block_id` can be had: it is cached, or there is room,
    /// or some cached block is held by nobody.
    pub open spec fn can_get(&self, block_id: usize) -> bool {
        ||| ids(self.queue@).contains(block_id)
        ||| self.queue@.len() < BLOCK_CACHE_SIZE
        ||| exists|i: int| 0 <= i < self.queue@.len() && self.queue@[i].refs == 0
    }

    /// Takes a hold on block `block_id` and returns its position. A cached
    /// block is reused. Else the block is loaded and appended; when the
    /// cache is full, the oldest block held by nobody is first written back
    /// (if modified) and dropped.
    pub fn get_block_cache<D: BlockDevice>(&mut self, block_id: usize, dev: &D) -> (r: usize)
        requires
            old(self).wf(),
            old(self).can_get(block_id),
            forall|i: int| 0 <= i < old(self).queue@.len() ==> (#[trigger] old(self).queue@[i]).refs < usize::MAX,
        ensures
            final(self).wf(),
            r < final(self).queue@.len(),
            final(self).queue@[r as int].block_id == block_id,
            final(self).queue@[r as int].refs >= 1,
            ids(old(self).queue@).contains(block_id) ==> ids(final(self).queue@) == ids(old(self).queue@),
            !ids(old(self).queue@).contains(block_id) && old(self).queue@.len() < BLOCK_CACHE_SIZE
                ==> ids(final(self).queue@) == ids(old(self).queue@).push(block_id),
            !ids(old(self).queue@).contains(block_id) && old(self).queue@.len() == BLOCK_CACHE_SIZE
                ==> exists|v: int| first_unpinned(old(self).queue@, v)
                    && ids(final(self).queue@) == ids(old(self).queue@).remove(v).push(block_id),
    {
        match self.position(block_id) {
            Some(i) => {
                let ghost q0 = self.queue@;
                assert(ids(q0)[i as int] == block_id);
                let r = self.queue[i].refs + 1;
                self.queue[i].refs = r;
                assert(ids(self.queue@) =~= ids(q0));
                return i;
            },
            None => {},
        }
        if self.queue.len() == BLOCK_CACHE_SIZE {
            let v = self.first_free();
            let ghost q0 = self.queue@;
            let mut victim = self.queue.remove(v);
            victim.sync(dev);
            proof {
                assert(first_unpinned(q0, v as int));
                assert(ids(self.queue@) =~= ids(q0).remove(v as int));
                assert(ids(q0).remove(v as int).no_duplicates()) by {
                    assert forall|a: int, b: int| 0 <= a < b < ids(q0).remove(v as int).len() implies ids(q0).remove(v as int)[a] != ids(q0).remove(v as int)[b] by {
                        let aa = if a < v { a } else { a + 1 };
                        let bb = if b < v { b } else { b + 1 };
                        assert(ids(q0)[aa] != ids(q0)[bb]);
                    }
                }
                assert(!ids(self.queue@).contains(block_id)) by {
                    if ids(self.queue@).contains(block_id) {
                        let j = ids(self.queue@).index_of(block_id);
                        let jj = if j < v { j } else { j + 1 };
                        assert(ids(q0)[jj] == block_id);
                    }
                }
            }
        }
        let mut b = BlockCache::new(block_id, dev);
        b.refs = 1;
        let ghost q1 = self.queue@;
        self.queue.push(b);
        proof {
            assert(ids(self.queue@) =~= ids(q1).push(block_id));
            assert(ids(q1).push(block_id).no_duplicates()) by {
                assert forall|a: int, c: int| 0 <= a < c < ids(q1).push(block_id).len() implies ids(q1).push(block_id)[a] != ids(q1).push(block_id)[c] by {
                    if c == ids(q1).len() {
                        assert(ids(q1).contains(ids(q1)[a]));
                    }
                }
            }
        }
        self.queue.len() - 1
    }

    /// Gives up a hold on the block at position `i`.
    pub fn release(&mut self, i: usize)
        requires
            old(self).wf(),
            i < old(self).queue@.len(),
            old(self).queue@[i as int].refs > 0,
        ensures
            final(self).wf(),
            ids(final(self).queue@) == ids(old(self).queue@),
            final(self).queue@[i as int].refs == old(self).queue@[i as int].refs - 1,
    {
        let r = self.queue[i].refs - 1;
        self.queue[i].refs = r;
        assert(ids(self.queue@) =~= ids(old(self).queue@));
    }

    /// Writes every modified block back.
    pub fn sync_all<D: BlockDevice>(&mut self, dev: &D)
        requires
            old(self).wf(),
        ensures
            final(self).wf(),
            ids(final(self).queue@) == ids(old(self).queue@),
            forall|i: int| 0 <= i < final(self).queue@.len() ==> !(#[trigger] final(self).queue@[i]).modified,
    {
        let mut i: usize = 0;
        while i < self.queue.len()
            invariant
                i <= self.queue@.len(),
                self.wf(),
                ids(self.queue@) == ids(old(self).queue@),
                forall|j: int| 0 <= j < i ==> !(#[trigger] self.queue@[j]).modified,
            decreases self.queue@.len() - i,
        {
            let ghost q0 = self.queue@;
            self.queue[i].sync(dev);
            assert(ids(self.queue@) =~= ids(q0));
            i = i + 1;
        }
    }
}

} // verus!
