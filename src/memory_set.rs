//! Page tables and address spaces built of framed areas.
use crate::config::{MAXVA, PAGE_SIZE};
use crate::frame_allocator::{FrameTracker, StackFrameAllocator};
use crate::page_table::{indexes, pte_bits, PageTableEntry, PPN_LIMIT, PTE_U, PTE_V};
use std::collections::BTreeMap;
use vstd::prelude::*;

verus! {

broadcast use vstd::std_specs::btree::group_btree_axioms, vstd::laws_cmp::group_laws_cmp;

/// Virtual page numbers below this bound have SV39 addresses.
pub const VPN_LIMIT: u64 = 0x800_0000;

/// A three-level page table. Leaves are kept by page number; each interior
/// table is made on first use from a frame that the table then owns.
pub struct PageTable {
    root_ppn: u64,
    frames: Vec<FrameTracker>,
    dirs: BTreeMap<u64, u64>,
    leaves: BTreeMap<u64, PageTableEntry>,
}

impl PageTable {
    /// Page number to leaf entry, for every mapped page.
    pub closed spec fn view(&self) -> Map<u64, PageTableEntry> {
        self.leaves@
    }

    pub closed spec fn spec_root_ppn(&self) -> u64 {
        self.root_ppn
    }

    pub closed spec fn wf(&self) -> bool {
        &&& self.root_ppn < PPN_LIMIT
        &&& self.leaves@.dom().finite()
    }

    /// A table with only its root, taken from `alloc`.
    pub fn new(alloc: &mut StackFrameAllocator) -> (r: Self)
        requires
            old(alloc).wf(),
            old(alloc).free_count() >= 1,
            old(alloc).spec_end() <= PPN_LIMIT,
        ensures
            r.wf(),
            r.view() == Map::<u64, PageTableEntry>::empty(),
            final(alloc).wf(),
            final(alloc).capacity() == old(alloc).capacity(),
            final(alloc).spec_end() == old(alloc).spec_end(),
            final(alloc).free_count() == old(alloc).free_count() - 1,
    {
        let f = alloc.allocate().unwrap();
        let root_ppn = f.ppn() as u64;
        let mut frames: Vec<FrameTracker> = Vec::new();
        frames.push(f);
        PageTable { root_ppn, frames, dirs: BTreeMap::new(), leaves: BTreeMap::new() }
    }

    /// The `satp` value of this table.
    pub fn token(&self) -> (r: u64)
        requires
            self.wf(),
        ensures
            r == (8u64 << 60u64) | self.spec_root_ppn(),
    {
        crate::page_table::token_of(self.root_ppn)
    }

    /// Makes sure the interior table `key` exists, taking a frame for it if not.
    fn ensure_dir(&mut self, key: u64, alloc: &mut StackFrameAllocator)
        requires
            old(alloc).wf(),
            old(alloc).free_count() >= 1,
        ensures
            final(self).leaves == old(self).leaves,
            final(self).root_ppn == old(self).root_ppn,
            final(alloc).wf(),
            final(alloc).capacity() == old(alloc).capacity(),
            final(alloc).spec_end() == old(alloc).spec_end(),
            final(alloc).free_count() == old(alloc).free_count() || final(alloc).free_count() == old(alloc).free_count() - 1,
    {
        if !self.dirs.contains_key(&key) {
            let f = alloc.allocate().unwrap();
            self.dirs.insert(key, f.ppn() as u64);
            self.frames.push(f);
        }
    }

    /// Maps `vpn` to page `ppn` with `flags` (V added), making the interior
    /// tables on the walk that are missing. `vpn` must be unmapped.
    pub fn map(&mut self, vpn: u64, ppn: u64, flags: u8, alloc: &mut StackFrameAllocator)
        requires
            old(self).wf(),
            !old(self).view().contains_key(vpn),
            vpn < VPN_LIMIT,
            ppn < PPN_LIMIT,
            old(alloc).wf(),
            old(alloc).free_count() >= 2,
        ensures
            final(self).wf(),
            final(self).view() == old(self).view().insert(vpn, PageTableEntry { bits: pte_bits(ppn, flags | PTE_V) }),
            final(self).spec_root_ppn() == old(self).spec_root_ppn(),
            final(alloc).wf(),
            final(alloc).capacity() == old(alloc).capacity(),
            final(alloc).spec_end() == old(alloc).spec_end(),
            final(alloc).free_count() >= old(alloc).free_count() - 2,
    {
        let idx = indexes(vpn);
        assert(vpn >> 9u64 < 0x4_0000u64) by (bit_vector)
            requires
                vpn < 0x800_0000u64,
        ;
        self.ensure_dir(idx[0] as u64, alloc);
        self.ensure_dir(0x1_0000_0000u64 + (vpn >> 9u64), alloc);
        let pte = PageTableEntry::new(ppn, flags | PTE_V);
        self.leaves.insert(vpn, pte);
    }

    /// Clears the entry of mapped page `vpn`; interior tables stay.
    pub fn unmap(&mut self, vpn: u64)
        requires
            old(self).wf(),
            old(self).view().contains_key(vpn),
        ensures
            final(self).wf(),
            final(self).view() == old(self).view().remove(vpn),
            final(self).spec_root_ppn() == old(self).spec_root_ppn(),
    {
        self.leaves.remove(&vpn);
    }

    /// The entry of `vpn`, when it is mapped.
    pub fn translate(&self, vpn: u64) -> (r: Option<PageTableEntry>)
        requires
            self.wf(),
        ensures
            r == if self.view().contains_key(vpn) {
                Some(self.view()[vpn])
            } else {
                None
            },
    {
        match self.leaves.get(&vpn) {
            Some(e) => Some(*e),
            None => None,
        }
    }
}

/// A range of pages `[start_vpn, end_vpn)`, each backed by a frame of its
/// own; a page whose frame was given back has `None`.
pub struct MapArea {
    pub start_vpn: u64,
    pub end_vpn: u64,
    pub perm: u8,
    pub frames: Vec<Option<FrameTracker>>,
}

impl MapArea {
    /// The area backs page `v`.
    pub open spec fn claims(&self, v: u64) -> bool {
        &&& self.start_vpn <= v < self.end_vpn
        &&& self.frames@[v - self.start_vpn] is Some
    }

    pub open spec fn frame_of(&self, v: u64) -> u64 {
        self.frames@[v - self.start_vpn].unwrap().spec_ppn() as u64
    }
}

/// An address space: a page table and the framed areas it maps.
pub struct MemorySet {
    pub page_table: PageTable,
    pub areas: Vec<MapArea>,
    /// Lowest address of the heap.
    pub heap_bottom: u64,
    /// Current end of the heap.
    pub program_brk: u64,
}

impl MemorySet {
    /// Every mapped page is claimed by exactly one area, and the page table
    /// maps it to that area's frame with the area's permissions.
    pub open spec fn wf(&self) -> bool {
        &&& self.page_table.wf()
        &&& self.heap_bottom <= self.program_brk <= MAXVA
        &&& forall|i: int|
            0 <= i < self.areas@.len() ==> {
                let a = #[trigger] self.areas@[i];
                &&& a.start_vpn <= a.end_vpn <= VPN_LIMIT
                &&& a.frames@.len() == a.end_vpn - a.start_vpn
            }
        &&& forall|v: u64|
            #[trigger] self.page_table.view().contains_key(v) <==> exists|i: int|
                0 <= i < self.areas@.len() && #[trigger] self.areas@[i].claims(v)
        &&& forall|i: int, j: int, v: u64|
            0 <= i < self.areas@.len() && 0 <= j < self.areas@.len() && i != j
                && #[trigger] self.areas@[i].claims(v) ==> !#[trigger] self.areas@[j].claims(v)
        &&& forall|i: int, v: u64|
            0 <= i < self.areas@.len() && #[trigger] self.areas@[i].claims(v)
                ==> self.page_table.view()[v].bits == pte_bits(
                self.areas@[i].frame_of(v),
                self.areas@[i].perm | PTE_V,
            )
    }

    /// An empty address space with a fresh root table; its heap starts,
    /// empty, at `heap_bottom`.
    pub fn new_bare(alloc: &mut StackFrameAllocator, heap_bottom: u64) -> (r: Self)
        requires
            old(alloc).wf(),
            old(alloc).free_count() >= 1,
            old(alloc).spec_end() <= PPN_LIMIT,
            heap_bottom <= MAXVA,
        ensures
            r.wf(),
            r.heap_bottom == heap_bottom,
            r.program_brk == heap_bottom,
            final(alloc).free_count() == old(alloc).free_count() - 1,
            r.page_table.view() == Map::<u64, PageTableEntry>::empty(),
            r.areas@.len() == 0,
            final(alloc).wf(),
            final(alloc).capacity() == old(alloc).capacity(),
            final(alloc).spec_end() == old(alloc).spec_end(),
    {
        let page_table = PageTable::new(alloc);
        MemorySet { page_table, areas: Vec::new(), heap_bottom, program_brk: heap_bottom }
    }

    /// The entry of `vpn`, when it is mapped.
    pub fn translate(&self, vpn: u64) -> (r: Option<PageTableEntry>)
        requires
            self.wf(),
        ensures
            r == if self.page_table.view().contains_key(vpn) {
                Some(self.page_table.view()[vpn])
            } else {
                None
            },
    {
        self.page_table.translate(vpn)
    }
}


impl MemorySet {
    /// Maps pages `[start_vpn, end_vpn)`, none of them mapped yet, each to a
    /// fresh frame, as a new area with permissions `perm`.
    pub fn insert_framed_area(
        &mut self,
        start_vpn: u64,
        end_vpn: u64,
        perm: u8,
        alloc: &mut StackFrameAllocator,
    )
        requires
            old(self).wf(),
            start_vpn <= end_vpn <= VPN_LIMIT,
            forall|v: u64| start_vpn <= v < end_vpn ==> !#[trigger] old(self).page_table.view().contains_key(v),
            old(alloc).wf(),
            old(alloc).free_count() >= 3 * (end_vpn - start_vpn),
            old(alloc).spec_end() <= PPN_LIMIT,
        ensures
            final(self).wf(),
            final(self).heap_bottom == old(self).heap_bottom,
            final(self).program_brk == old(self).program_brk,
            final(self).areas@.len() == old(self).areas@.len() + 1,
            forall|i: int| 0 <= i < old(self).areas@.len() ==> #[trigger] final(self).areas@[i] == old(self).areas@[i],
            final(self).areas@.last().start_vpn == start_vpn,
            final(self).areas@.last().end_vpn == end_vpn,
            final(self).areas@.last().perm == perm,
            forall|v: u64| #[trigger] final(self).page_table.view().contains_key(v) <==> (old(self).page_table.view().contains_key(v) || start_vpn <= v < end_vpn),
            forall|v: u64| #[trigger] old(self).page_table.view().contains_key(v) ==> final(self).page_table.view()[v] == old(self).page_table.view()[v],
            forall|v: u64| start_vpn <= v < end_vpn ==> #[trigger] final(self).areas@.last().claims(v),
            final(alloc).wf(),
            final(alloc).capacity() == old(alloc).capacity(),
            final(alloc).spec_end() == old(alloc).spec_end(),
            final(alloc).free_count() >= old(alloc).free_count() - 3 * (end_vpn - start_vpn),
    {
        let ghost view0 = self.page_table.view();
        let mut frames: Vec<Option<FrameTracker>> = Vec::new();
        let mut v = start_vpn;
        while v < end_vpn
            invariant
                start_vpn <= v <= end_vpn <= VPN_LIMIT,
                self.page_table.wf(),
                self.areas == old(self).areas,
                self.heap_bottom == old(self).heap_bottom,
                self.program_brk == old(self).program_brk,
                frames@.len() == v - start_vpn,
                forall|k: int| 0 <= k < frames@.len() ==> (#[trigger] frames@[k]) is Some,
                forall|u: u64| start_vpn <= u < end_vpn ==> !#[trigger] view0.contains_key(u),
                forall|u: u64| #[trigger] self.page_table.view().contains_key(u) <==> (view0.contains_key(u) || start_vpn <= u < v),
                forall|u: u64| #[trigger] view0.contains_key(u) ==> self.page_table.view()[u] == view0[u],
                forall|u: u64| start_vpn <= u < v ==> #[trigger] self.page_table.view()[u].bits == pte_bits(frames@[u - start_vpn].unwrap().spec_ppn() as u64, perm | PTE_V),
                view0 == old(self).page_table.view(),
                alloc.wf(),
                alloc.capacity() == old(alloc).capacity(),
                alloc.spec_end() == old(alloc).spec_end(),
                alloc.spec_end() <= PPN_LIMIT,
                alloc.free_count() >= 3 * (end_vpn - v),
                old(alloc).free_count() - alloc.free_count() <= 3 * (v - start_vpn),
            decreases end_vpn - v,
        {
            let f = alloc.allocate().unwrap();
            let ppn = f.ppn() as u64;
            self.page_table.map(v, ppn, perm, alloc);
            let ghost fv = frames@;
            frames.push(Some(f));
            proof {
                assert forall|u: u64| start_vpn <= u < v + 1 implies #[trigger] self.page_table.view()[u].bits == pte_bits(frames@[u - start_vpn].unwrap().spec_ppn() as u64, perm | PTE_V) by {
                    if u < v {
                        assert(frames@[u - start_vpn] == fv[u - start_vpn]);
                    }
                }
            }
            v = v + 1;
        }
        let area = MapArea { start_vpn, end_vpn, perm, frames };
        let ghost ov = old(self).areas@;
        self.areas.push(area);
        proof {
            let n = ov.len() as int;
            assert forall|i: int| 0 <= i < ov.len() implies #[trigger] self.areas@[i] == ov[i] by {}
            assert forall|u: u64| #[trigger] self.page_table.view().contains_key(u) <==> exists|i: int|
                0 <= i < self.areas@.len() && #[trigger] self.areas@[i].claims(u) by {
                if view0.contains_key(u) {
                    let i = choose|i: int| 0 <= i < ov.len() && #[trigger] ov[i].claims(u);
                    assert(self.areas@[i] == ov[i]);
                }
                if start_vpn <= u < end_vpn {
                    assert(self.areas@[n].claims(u));
                }
                if exists|i: int| 0 <= i < self.areas@.len() && #[trigger] self.areas@[i].claims(u) {
                    let i = choose|i: int| 0 <= i < self.areas@.len() && #[trigger] self.areas@[i].claims(u);
                    if i < n {
                        assert(ov[i].claims(u));
                    }
                }
            }
            assert forall|i: int, j: int, u: u64|
                0 <= i < self.areas@.len() && 0 <= j < self.areas@.len() && i != j
                    && #[trigger] self.areas@[i].claims(u) implies !#[trigger] self.areas@[j].claims(u) by {
                if i < n && j < n {
                    assert(ov[i].claims(u));
                } else if i == n {
                    if j < n && self.areas@[j].claims(u) {
                        assert(ov[j].claims(u));
                        assert(view0.contains_key(u));
                    }
                } else {
                    assert(ov[i].claims(u));
                    assert(view0.contains_key(u));
                }
            }
            assert forall|i: int, u: u64|
                0 <= i < self.areas@.len() && #[trigger] self.areas@[i].claims(u)
                    implies self.page_table.view()[u].bits == pte_bits(
                    self.areas@[i].frame_of(u),
                    self.areas@[i].perm | PTE_V,
                ) by {
                if i < n {
                    assert(ov[i].claims(u));
                    assert(view0.contains_key(u));
                }
            }
            assert forall|u: u64| start_vpn <= u < end_vpn implies #[trigger] self.areas@.last().claims(u) by {}
        }
    }

    /// Adds an area `[start_vpn, end_vpn)` with permissions `perm` that backs
    /// the pages `mask` selects, each with a fresh frame; those pages must be
    /// unmapped.
    pub fn insert_area_masked(
        &mut self,
        start_vpn: u64,
        end_vpn: u64,
        perm: u8,
        mask: &Vec<bool>,
        alloc: &mut StackFrameAllocator,
    )
        requires
            old(self).wf(),
            start_vpn <= end_vpn <= VPN_LIMIT,
            mask@.len() == end_vpn - start_vpn,
            forall|v: u64| start_vpn <= v < end_vpn && mask@[v - start_vpn] ==> !#[trigger] old(self).page_table.view().contains_key(v),
            old(alloc).wf(),
            old(alloc).free_count() >= 3 * (end_vpn - start_vpn),
            old(alloc).spec_end() <= PPN_LIMIT,
        ensures
            final(self).wf(),
            final(self).heap_bottom == old(self).heap_bottom,
            final(self).program_brk == old(self).program_brk,
            final(self).areas@.len() == old(self).areas@.len() + 1,
            forall|i: int| 0 <= i < old(self).areas@.len() ==> #[trigger] final(self).areas@[i] == old(self).areas@[i],
            final(self).areas@.last().start_vpn == start_vpn,
            final(self).areas@.last().end_vpn == end_vpn,
            final(self).areas@.last().perm == perm,
            forall|v: u64| #[trigger] final(self).page_table.view().contains_key(v) <==> (old(self).page_table.view().contains_key(v)
                || (start_vpn <= v < end_vpn && mask@[v - start_vpn])),
            forall|v: u64| #[trigger] old(self).page_table.view().contains_key(v) ==> final(self).page_table.view()[v] == old(self).page_table.view()[v],
            forall|v: u64| #[trigger] final(self).areas@.last().claims(v) <==> (start_vpn <= v < end_vpn && mask@[v - start_vpn]),
            final(alloc).wf(),
            final(alloc).capacity() == old(alloc).capacity(),
            final(alloc).spec_end() == old(alloc).spec_end(),
            final(alloc).free_count() >= old(alloc).free_count() - 3 * (end_vpn - start_vpn),
    {
        let ghost view0 = self.page_table.view();
        let mut frames: Vec<Option<FrameTracker>> = Vec::new();
        let mut v = start_vpn;
        while v < end_vpn
            invariant
                start_vpn <= v <= end_vpn <= VPN_LIMIT,
                self.page_table.wf(),
                self.areas == old(self).areas,
                self.heap_bottom == old(self).heap_bottom,
                self.program_brk == old(self).program_brk,
                frames@.len() == v - start_vpn,
                mask@.len() == end_vpn - start_vpn,
                forall|k: int| 0 <= k < frames@.len() ==> ((#[trigger] frames@[k]) is Some <==> mask@[k]),
                forall|u: u64| start_vpn <= u < end_vpn && mask@[u - start_vpn] ==> !#[trigger] view0.contains_key(u),
                forall|u: u64| #[trigger] self.page_table.view().contains_key(u) <==> (view0.contains_key(u) || (start_vpn <= u < v && mask@[u - start_vpn])),
                forall|u: u64| #[trigger] view0.contains_key(u) ==> self.page_table.view()[u] == view0[u],
                forall|u: u64| start_vpn <= u < v && mask@[u - start_vpn] ==> #[trigger] self.page_table.view()[u].bits == pte_bits(frames@[u - start_vpn].unwrap().spec_ppn() as u64, perm | PTE_V),
                view0 == old(self).page_table.view(),
                alloc.wf(),
                alloc.capacity() == old(alloc).capacity(),
                alloc.spec_end() == old(alloc).spec_end(),
                alloc.spec_end() <= PPN_LIMIT,
                alloc.free_count() >= 3 * (end_vpn - v),
                old(alloc).free_count() - alloc.free_count() <= 3 * (v - start_vpn),
            decreases end_vpn - v,
        {
            let ghost fv = frames@;
            if mask[(v - start_vpn) as usize] {
                let f = alloc.allocate().unwrap();
                let ppn = f.ppn() as u64;
                self.page_table.map(v, ppn, perm, alloc);
                frames.push(Some(f));
            } else {
                frames.push(None);
            }
            proof {
                assert forall|u: u64| start_vpn <= u < v + 1 && mask@[u - start_vpn] implies #[trigger] self.page_table.view()[u].bits == pte_bits(frames@[u - start_vpn].unwrap().spec_ppn() as u64, perm | PTE_V) by {
                    if u < v {
                        assert(frames@[u - start_vpn] == fv[u - start_vpn]);
                    }
                }
                assert forall|kk: int| 0 <= kk < frames@.len() implies ((#[trigger] frames@[kk]) is Some <==> mask@[kk]) by {
                    if kk < fv.len() {
                        assert(frames@[kk] == fv[kk]);
                    }
                }
            }
            v = v + 1;
        }
        let area = MapArea { start_vpn, end_vpn, perm, frames };
        let ghost ov = old(self).areas@;
        self.areas.push(area);
        proof {
            let n = ov.len() as int;
            assert forall|i: int| 0 <= i < ov.len() implies #[trigger] self.areas@[i] == ov[i] by {}
            assert forall|u: u64| #[trigger] self.page_table.view().contains_key(u) <==> exists|i: int|
                0 <= i < self.areas@.len() && #[trigger] self.areas@[i].claims(u) by {
                if view0.contains_key(u) {
                    let i = choose|i: int| 0 <= i < ov.len() && #[trigger] ov[i].claims(u);
                    assert(self.areas@[i] == ov[i]);
                }
                if start_vpn <= u < end_vpn && mask@[u - start_vpn] {
                    assert(self.areas@[n].claims(u));
                }
                if exists|i: int| 0 <= i < self.areas@.len() && #[trigger] self.areas@[i].claims(u) {
                    let i = choose|i: int| 0 <= i < self.areas@.len() && #[trigger] self.areas@[i].claims(u);
                    if i < n {
                        assert(ov[i].claims(u));
                    }
                }
            }
            assert forall|i: int, j: int, u: u64|
                0 <= i < self.areas@.len() && 0 <= j < self.areas@.len() && i != j
                    && #[trigger] self.areas@[i].claims(u) implies !#[trigger] self.areas@[j].claims(u) by {
                if i < n && j < n {
                    assert(ov[i].claims(u));
                } else if i == n {
                    if j < n && self.areas@[j].claims(u) {
                        assert(ov[j].claims(u));
                        assert(view0.contains_key(u));
                    }
                } else {
                    assert(ov[i].claims(u));
                    assert(view0.contains_key(u));
                }
            }
            assert forall|i: int, u: u64|
                0 <= i < self.areas@.len() && #[trigger] self.areas@[i].claims(u)
                    implies self.page_table.view()[u].bits == pte_bits(
                    self.areas@[i].frame_of(u),
                    self.areas@[i].perm | PTE_V,
                ) by {
                if i < n {
                    assert(ov[i].claims(u));
                    assert(view0.contains_key(u));
                }
            }
            assert forall|u: u64| #[trigger] self.areas@.last().claims(u) <==> (start_vpn <= u < end_vpn && mask@[u - start_vpn]) by {}
        }
    }

    /// Index of the area that claims mapped page `v`.
    fn find_area(&self, v: u64) -> (i: usize)
        requires
            self.wf(),
            self.page_table.view().contains_key(v),
        ensures
            i < self.areas@.len(),
            self.areas@[i as int].claims(v),
    {
        let ghost w = choose|i: int| 0 <= i < self.areas@.len() && #[trigger] self.areas@[i].claims(v);
        let mut i: usize = 0;
        while i < self.areas.len()
            invariant
                self.wf(),
                0 <= w < self.areas@.len(),
                self.areas@[w].claims(v),
                i <= self.areas@.len(),
                forall|j: int| 0 <= j < i ==> !(#[trigger] self.areas@[j]).claims(v),
            decreases self.areas@.len() - i,
        {
            let a = &self.areas[i];
            if a.start_vpn <= v && v < a.end_vpn && a.frames[(v - a.start_vpn) as usize].is_some() {
                return i;
            }
            i = i + 1;
        }
        assert(!self.areas@[w].claims(v));
        0
    }

    /// Unmaps page `v` and gives its frame back: the area that claimed it
    /// no longer does.
    pub fn unmap_page(&mut self, v: u64, alloc: &mut StackFrameAllocator)
        requires
            old(self).wf(),
            old(self).page_table.view().contains_key(v),
            old(alloc).wf(),
        ensures
            final(self).wf(),
            final(self).heap_bottom == old(self).heap_bottom,
            final(self).program_brk == old(self).program_brk,
            final(self).page_table.view() == old(self).page_table.view().remove(v),
            final(self).areas@.len() == old(self).areas@.len(),
            forall|i: int| 0 <= i < final(self).areas@.len() ==> (#[trigger] final(self).areas@[i]).start_vpn == old(self).areas@[i].start_vpn
                && final(self).areas@[i].end_vpn == old(self).areas@[i].end_vpn,
            forall|i: int, u: u64| 0 <= i < final(self).areas@.len() ==> (#[trigger] final(self).areas@[i].claims(u) <==> old(self).areas@[i].claims(u) && u != v),
            final(alloc).wf(),
            final(alloc).capacity() == old(alloc).capacity(),
            final(alloc).spec_end() == old(alloc).spec_end(),
            final(alloc).free_count() >= old(alloc).free_count(),
    {
        let ghost ov = self.areas@;
        let i = self.find_area(v);
        let off = (v - self.areas[i].start_vpn) as usize;
        let f = crate::task::take_slot(&mut self.areas[i].frames, off);
        self.page_table.unmap(v);
        match f {
            Some(fr) => {
                alloc.dealloc_checked(fr);
            },
            None => {},
        }
        proof {
            let ii = i as int;
            assert(ov[ii].claims(v));
            assert forall|j: int| 0 <= j < self.areas@.len() && j != ii implies #[trigger] self.areas@[j] == ov[j] by {}
            assert forall|u: u64| u != v implies (#[trigger] self.areas@[ii].claims(u) == ov[ii].claims(u)) by {
                if ov[ii].start_vpn <= u < ov[ii].end_vpn {
                    assert(self.areas@[ii].frames@[u - ov[ii].start_vpn] == ov[ii].frames@[u - ov[ii].start_vpn]);
                }
            }
            assert(!self.areas@[ii].claims(v));
            assert forall|u: u64| #[trigger] self.page_table.view().contains_key(u) <==> exists|j: int|
                0 <= j < self.areas@.len() && #[trigger] self.areas@[j].claims(u) by {
                if u != v {
                    if old(self).page_table.view().contains_key(u) {
                        let j = choose|j: int| 0 <= j < ov.len() && #[trigger] ov[j].claims(u);
                        if j == ii {
                            assert(self.areas@[ii].claims(u));
                        } else {
                            assert(self.areas@[j] == ov[j]);
                        }
                    }
                    if exists|j: int| 0 <= j < self.areas@.len() && #[trigger] self.areas@[j].claims(u) {
                        let j = choose|j: int| 0 <= j < self.areas@.len() && #[trigger] self.areas@[j].claims(u);
                        if j != ii {
                            assert(ov[j].claims(u));
                        } else {
                            assert(ov[ii].claims(u));
                        }
                    }
                } else {
                    if exists|j: int| 0 <= j < self.areas@.len() && #[trigger] self.areas@[j].claims(u) {
                        let j = choose|j: int| 0 <= j < self.areas@.len() && #[trigger] self.areas@[j].claims(u);
                        if j != ii {
                            assert(ov[j].claims(v));
                        }
                    }
                }
            }
            assert forall|a: int, b: int, u: u64|
                0 <= a < self.areas@.len() && 0 <= b < self.areas@.len() && a != b
                    && #[trigger] self.areas@[a].claims(u) implies !#[trigger] self.areas@[b].claims(u) by {
                if u != v {
                    if a == ii { assert(ov[ii].claims(u)); } else { assert(ov[a].claims(u)); }
                    if self.areas@[b].claims(u) {
                        if b == ii { assert(ov[ii].claims(u)); } else { assert(ov[b].claims(u)); }
                    }
                } else {
                    if a != ii {
                        assert(ov[a].claims(v));
                    }
                }
            }
            assert forall|a: int, u: u64|
                0 <= a < self.areas@.len() && #[trigger] self.areas@[a].claims(u)
                    implies self.page_table.view()[u].bits == pte_bits(
                    self.areas@[a].frame_of(u),
                    self.areas@[a].perm | PTE_V,
                ) by {
                if a == ii {
                    assert(u != v);
                    assert(ov[ii].claims(u));
                    assert(self.areas@[ii].frames@[u - ov[ii].start_vpn] == ov[ii].frames@[u - ov[ii].start_vpn]);
                } else {
                    assert(ov[a].claims(u));
                    if u == v {
                        assert(false);
                    }
                }
            }
            assert forall|j: int| 0 <= j < self.areas@.len() implies {
                let a = #[trigger] self.areas@[j];
                &&& a.start_vpn <= a.end_vpn <= VPN_LIMIT
                &&& a.frames@.len() == a.end_vpn - a.start_vpn
            } by {
                assert(ov[j].frames@.len() == self.areas@[j].frames@.len());
            }
            assert forall|j: int, u: u64| 0 <= j < self.areas@.len() implies (#[trigger] self.areas@[j].claims(u) <==> ov[j].claims(u) && u != v) by {
                if j != ii && u == v && ov[j].claims(v) {
                    assert(ov[ii].claims(v));
                }
            }
        }
    }
}

/// In a well-formed address space a mapped page has exactly one owner: one
/// area claims it, no other does, and the page table maps it to that area's
/// frame with the area's permissions and V.
pub proof fn lemma_mapped_page_has_one_owner(ms: &MemorySet, v: u64)
    requires
        ms.wf(),
        ms.page_table.view().contains_key(v),
    ensures
        exists|i: int|
            0 <= i < ms.areas@.len() && #[trigger] ms.areas@[i].claims(v)
                && (forall|j: int| 0 <= j < ms.areas@.len() && j != i ==> !#[trigger] ms.areas@[j].claims(v))
                && ms.page_table.view()[v].bits == pte_bits(ms.areas@[i].frame_of(v), ms.areas@[i].perm | PTE_V),
{
    let i = choose|i: int| 0 <= i < ms.areas@.len() && #[trigger] ms.areas@[i].claims(v);
    assert forall|j: int| 0 <= j < ms.areas@.len() && j != i implies !#[trigger] ms.areas@[j].claims(v) by {
        assert(ms.areas@[i].claims(v));
    }
}

/// Page holding byte `start`.
pub open spec fn first_page(start: usize) -> int {
    start as int / PAGE_SIZE as int
}

/// First page past byte range `[start, end)`.
pub open spec fn end_page(end: int) -> int {
    (end + PAGE_SIZE as int - 1) / PAGE_SIZE as int
}

/// The area permissions that an `mmap` protection asks for: its R, W, X
/// bits (0, 1, 2) become R, W, X of an entry (1, 2, 3), plus U.
pub open spec fn mmap_perm(port: usize) -> u8 {
    ((((port & 7usize) as u8) << 1u8) | PTE_U) as u8
}

/// `mmap` refuses the request: `start` not page-aligned, protection bits
/// other than RWX or none of them, a range reaching past `MAXVA`, or a page
/// of the range already mapped.
pub open spec fn mmap_refused(ms: &MemorySet, start: usize, len: usize, port: usize) -> bool {
    ||| start % (PAGE_SIZE as usize) != 0
    ||| port & !7usize != 0
    ||| port & 7usize == 0
    ||| start >= MAXVA
    ||| start + len > MAXVA
    ||| exists|v: u64|
        first_page(start) <= v < end_page(start + len) && #[trigger] ms.page_table.view().contains_key(v)
}

/// Maps `[start, start + len)` with fresh frames and the protection `port`
/// (R, W, X in bits 0..3). -1, with nothing changed, when refused.
pub fn sys_mmap(
    ms: &mut MemorySet,
    alloc: &mut StackFrameAllocator,
    start: usize,
    len: usize,
    port: usize,
) -> (r: isize)
    requires
        old(ms).wf(),
        old(alloc).wf(),
        old(alloc).spec_end() <= PPN_LIMIT,
        old(alloc).free_count() >= 3 * (end_page(start + len) - first_page(start)),
    ensures
        final(ms).wf(),
        final(alloc).wf(),
        r == -1 <==> mmap_refused(old(ms), start, len, port),
        r == -1 ==> final(ms).page_table.view() == old(ms).page_table.view() && final(ms).areas@ == old(ms).areas@,
        r == 0 ==> forall|v: u64| #[trigger] final(ms).page_table.view().contains_key(v) <==> (old(ms).page_table.view().contains_key(v)
            || first_page(start) <= v < end_page(start + len)),
        r == 0 ==> forall|v: u64| #[trigger] old(ms).page_table.view().contains_key(v) ==> final(ms).page_table.view()[v] == old(ms).page_table.view()[v],
        r == 0 ==> final(ms).areas@.len() == old(ms).areas@.len() + 1
            && (forall|i: int| 0 <= i < old(ms).areas@.len() ==> #[trigger] final(ms).areas@[i] == old(ms).areas@[i])
            && final(ms).areas@.last().perm == mmap_perm(port)
            && final(ms).areas@.last().start_vpn == first_page(start)
            && final(ms).areas@.last().end_vpn == end_page(start + len),
        r == 0 ==> forall|v: u64| first_page(start) <= v < end_page(start + len) ==> #[trigger] final(ms).areas@.last().claims(v),
        r == 0 ==> forall|v: u64| first_page(start) <= v < end_page(start + len) ==> #[trigger] final(ms).page_table.view()[v].bits
            == pte_bits(final(ms).areas@.last().frame_of(v), mmap_perm(port) | PTE_V),
        r == 0 || r == -1,
{
    if start % (PAGE_SIZE as usize) != 0 || port & !7usize != 0 || port & 7usize == 0 || start as u64 >= MAXVA {
        return -1;
    }
    if len as u64 > MAXVA - start as u64 {
        return -1;
    }
    let start_vpn = crate::page_table::floor(start as u64);
    let end_vpn = crate::page_table::ceil(start as u64 + len as u64);
    let mut v = start_vpn;
    while v < end_vpn
        invariant
            start_vpn <= v <= end_vpn,
            start_vpn == first_page(start),
            end_vpn == end_page(start + len),
            ms.wf(),
            *ms == *old(ms),
            alloc.wf(),
            *alloc == *old(alloc),
            forall|u: u64| start_vpn <= u < v ==> !#[trigger] ms.page_table.view().contains_key(u),
        decreases end_vpn - v,
    {
        if ms.translate(v).is_some() {
            return -1;
        }
        v = v + 1;
    }
    let perm = (((port & 7usize) as u8) << 1u8) | PTE_U;
    assert(end_vpn <= VPN_LIMIT);
    ms.insert_framed_area(start_vpn, end_vpn, perm, alloc);
    proof {
        let n = ms.areas@.len() - 1;
        assert forall|v: u64| start_vpn <= v < end_vpn implies #[trigger] ms.areas@.last().claims(v)
            && ms.page_table.view()[v].bits == pte_bits(ms.areas@.last().frame_of(v), mmap_perm(port) | PTE_V) by {
            assert(ms.areas@.last() == ms.areas@[n]);
            assert(ms.areas@[n].claims(v));
            assert(ms.page_table.view()[v].bits == pte_bits(ms.areas@[n].frame_of(v), ms.areas@[n].perm | PTE_V));
            assert(ms.areas@[n].perm == mmap_perm(port));
        }
        assert(start_vpn == first_page(start) && end_vpn == end_page(start + len));
        assert forall|v: u64| first_page(start) <= v < end_page(start + len) implies #[trigger] ms.areas@.last().claims(v) by {
            assert(start_vpn <= v < end_vpn);
        }
        assert forall|v: u64| first_page(start) <= v < end_page(start + len) implies #[trigger] ms.page_table.view()[v].bits
            == pte_bits(ms.areas@.last().frame_of(v), mmap_perm(port) | PTE_V) by {
            assert(start_vpn <= v < end_vpn);
            assert(ms.areas@.last().claims(v));
        }
    }
    0
}

/// Unmaps `[start, start + len)` and frees its frames. -1, with nothing
/// changed, when `start` is unaligned, the range reaches past `MAXVA`, or a
/// page of the range is not mapped.
pub fn sys_munmap(
    ms: &mut MemorySet,
    alloc: &mut StackFrameAllocator,
    start: usize,
    len: usize,
) -> (r: isize)
    requires
        old(ms).wf(),
        old(alloc).wf(),
    ensures
        final(ms).wf(),
        final(alloc).wf(),
        ({
            let lo = first_page(start);
            let hi = end_page(start + len);
            &&& r == -1 <==> (start >= MAXVA || start + len > MAXVA || start % (PAGE_SIZE as usize) != 0
                || exists|v: u64| lo <= v < hi && !#[trigger] old(ms).page_table.view().contains_key(v))
            &&& r == -1 ==> final(ms).page_table.view() == old(ms).page_table.view()
                && final(ms).areas@.len() == old(ms).areas@.len()
            &&& r == 0 ==> forall|v: u64| #[trigger] final(ms).page_table.view().contains_key(v) <==> (old(ms).page_table.view().contains_key(v) && !(lo <= v < hi))
            &&& r == 0 ==> forall|v: u64| #[trigger] final(ms).page_table.view().contains_key(v) ==> final(ms).page_table.view()[v] == old(ms).page_table.view()[v]
            &&& r == 0 || r == -1
        }),
{
    if start as u64 >= MAXVA || start % (PAGE_SIZE as usize) != 0 || len as u64 > MAXVA - start as u64 {
        return -1;
    }
    let end: u64 = start as u64 + len as u64;
    let start_vpn = crate::page_table::floor(start as u64);
    let end_vpn = crate::page_table::ceil(end);
    let mut v = start_vpn;
    while v < end_vpn
        invariant
            start_vpn <= v <= end_vpn,
            ms.wf(),
            *ms == *old(ms),
            alloc.wf(),
            *alloc == *old(alloc),
            start_vpn == first_page(start),
            end_vpn == end_page(end as int),
            end as int == start + len,
            forall|u: u64| start_vpn <= u < v ==> #[trigger] ms.page_table.view().contains_key(u),
        decreases end_vpn - v,
    {
        if ms.translate(v).is_none() {
            return -1;
        }
        v = v + 1;
    }
    let ghost view0 = ms.page_table.view();
    let mut v = start_vpn;
    while v < end_vpn
        invariant
            start_vpn <= v <= end_vpn,
            ms.wf(),
            alloc.wf(),
            forall|u: u64| v <= u < end_vpn ==> #[trigger] view0.contains_key(u),
            forall|u: u64| #[trigger] ms.page_table.view().contains_key(u) <==> (view0.contains_key(u) && !(start_vpn <= u < v)),
            forall|u: u64| #[trigger] ms.page_table.view().contains_key(u) ==> ms.page_table.view()[u] == view0[u],
        decreases end_vpn - v,
    {
        assert(ms.page_table.view().contains_key(v));
        ms.unmap_page(v, alloc);
        v = v + 1;
    }
    0
}


impl MemorySet {
    /// Moves the program break by `size` bytes and returns the old break.
    /// Growing maps the whole pages that the heap newly reaches (read and
    /// write, user); shrinking unmaps those it leaves. `None`, with nothing
    /// changed, when the break would fall below the heap bottom or pass
    /// `MAXVA`, when a page to map is already mapped, or when frames run short.
    pub fn change_program_brk(&mut self, size: i32, alloc: &mut StackFrameAllocator) -> (r: Option<u64>)
        requires
            old(self).wf(),
            old(alloc).wf(),
            old(alloc).spec_end() <= PPN_LIMIT,
        ensures
            final(self).wf(),
            final(alloc).wf(),
            final(alloc).spec_end() == old(alloc).spec_end(),
            final(self).heap_bottom == old(self).heap_bottom,
            r.is_none() ==> final(self).program_brk == old(self).program_brk
                && final(self).page_table.view() == old(self).page_table.view(),
            r.is_some() ==> r == Some(old(self).program_brk)
                && final(self).program_brk == old(self).program_brk + size,
            old(self).program_brk + size < old(self).heap_bottom || old(self).program_brk + size > MAXVA ==> r.is_none(),
            old(self).heap_bottom <= old(self).program_brk + size <= MAXVA && size < 0 ==> r.is_some(),
            old(self).heap_bottom <= old(self).program_brk + size <= MAXVA && size >= 0
                && (forall|v: u64| end_page(old(self).program_brk as int) <= v < end_page(old(self).program_brk + size)
                    ==> !#[trigger] old(self).page_table.view().contains_key(v))
                && old(alloc).free_count() >= 3 * (end_page(old(self).program_brk + size) - end_page(old(self).program_brk as int))
                ==> r.is_some(),
            r.is_none() ==> final(self).areas@ == old(self).areas@,
            ({
                let lo = end_page(old(self).program_brk as int);
                let hi = end_page(old(self).program_brk + size);
                &&& r.is_some() && size >= 0 ==> forall|v: u64| #[trigger] final(self).page_table.view().contains_key(v)
                    <==> old(self).page_table.view().contains_key(v) || lo <= v < hi
                &&& r.is_some() && size >= 0 ==> final(self).areas@.len() == old(self).areas@.len() + 1
                    && final(self).areas@.last().start_vpn == lo && final(self).areas@.last().end_vpn == hi
                    && final(self).areas@.last().perm == crate::page_table::PTE_R | crate::page_table::PTE_W | PTE_U
                    && forall|v: u64| lo <= v < hi ==> #[trigger] final(self).areas@.last().claims(v)
                &&& r.is_some() && size < 0 ==> forall|v: u64| #[trigger] final(self).page_table.view().contains_key(v)
                    <==> old(self).page_table.view().contains_key(v) && !(hi <= v < lo)
                &&& r.is_some() ==> forall|v: u64| #[trigger] final(self).page_table.view().contains_key(v)
                    && old(self).page_table.view().contains_key(v) ==> final(self).page_table.view()[v] == old(self).page_table.view()[v]
            }),
    {
        let old_brk = self.program_brk;
        let new_brk_i = old_brk as i64 + size as i64;
        if new_brk_i < self.heap_bottom as i64 || new_brk_i > MAXVA as i64 {
            return None;
        }
        let new_brk = new_brk_i as u64;
        let from = crate::page_table::ceil(old_brk);
        let to = crate::page_table::ceil(new_brk);
        if size >= 0 {
            let mut v = from;
            while v < to
                invariant
                    from <= v <= to,
                    to <= VPN_LIMIT,
                    size >= 0,
                    old_brk == old(self).program_brk,
                    new_brk == old_brk + size,
                    from == end_page(old_brk as int),
                    to == end_page(new_brk as int),
                    old(self).heap_bottom <= new_brk <= MAXVA,
                    self.wf(),
                    *self == *old(self),
                    alloc.wf(),
                    *alloc == *old(alloc),
                    forall|u: u64| from <= u < v ==> !#[trigger] self.page_table.view().contains_key(u),
                decreases to - v,
            {
                if self.translate(v).is_some() {
                    return None;
                }
                v = v + 1;
            }
            assert(to <= VPN_LIMIT);
            if alloc.free_frames() / 3 < (to - from) as usize {
                return None;
            }
            self.insert_framed_area(from, to, crate::page_table::PTE_R | crate::page_table::PTE_W | PTE_U, alloc);
        } else {
            let ghost view0 = self.page_table.view();
            let mut v = to;
            while v < from
                invariant
                    to <= v <= from,
                    view0 == old(self).page_table.view(),
                    forall|u: u64| #[trigger] self.page_table.view().contains_key(u) <==> view0.contains_key(u) && !(to <= u < v),
                    forall|u: u64| #[trigger] self.page_table.view().contains_key(u) ==> self.page_table.view()[u] == view0[u],
                    self.wf(),
                    alloc.wf(),
                    alloc.spec_end() == old(alloc).spec_end(),
                    self.heap_bottom == old(self).heap_bottom,
                    self.program_brk == old(self).program_brk,
                decreases from - v,
            {
                if self.translate(v).is_some() {
                    self.unmap_page(v, alloc);
                }
                v = v + 1;
            }
        }
        let ghost prev = *self;
        self.program_brk = new_brk;
        proof {
            assert(prev.wf());
            assert(self.page_table == prev.page_table && self.areas == prev.areas);
            assert forall|v: u64| #[trigger] self.page_table.view().contains_key(v) <==> exists|i: int|
                0 <= i < self.areas@.len() && #[trigger] self.areas@[i].claims(v) by {
                assert(prev.page_table.view().contains_key(v) <==> exists|i: int|
                    0 <= i < prev.areas@.len() && #[trigger] prev.areas@[i].claims(v));
            }
            assert(self.wf());
        }
        Some(old_brk)
    }
}

/// Moves the program break by `size` bytes; returns the old break, or -1.
pub fn sys_sbrk(ms: &mut MemorySet, alloc: &mut StackFrameAllocator, size: i32) -> (r: i64)
    requires
        old(ms).wf(),
        old(alloc).wf(),
        old(alloc).spec_end() <= PPN_LIMIT,
    ensures
        final(ms).wf(),
        final(alloc).wf(),
        r == -1 ==> final(ms).program_brk == old(ms).program_brk,
        r != -1 ==> r == old(ms).program_brk && final(ms).program_brk == old(ms).program_brk + size,
        old(ms).program_brk + size < old(ms).heap_bottom || old(ms).program_brk + size > MAXVA ==> r == -1,
        old(ms).heap_bottom <= old(ms).program_brk + size <= MAXVA && size < 0 ==> r == old(ms).program_brk,
        old(ms).heap_bottom <= old(ms).program_brk + size <= MAXVA && size >= 0
            && (forall|v: u64| end_page(old(ms).program_brk as int) <= v < end_page(old(ms).program_brk + size)
                ==> !#[trigger] old(ms).page_table.view().contains_key(v))
            && old(alloc).free_count() >= 3 * (end_page(old(ms).program_brk + size) - end_page(old(ms).program_brk as int))
            ==> r == old(ms).program_brk,
        r == -1 || r == old(ms).program_brk,
        r == -1 ==> final(ms).page_table.view() == old(ms).page_table.view() && final(ms).areas@ == old(ms).areas@,
        ({
            let lo = end_page(old(ms).program_brk as int);
            let hi = end_page(old(ms).program_brk + size);
            &&& r != -1 && size >= 0 ==> forall|v: u64| #[trigger] final(ms).page_table.view().contains_key(v)
                <==> old(ms).page_table.view().contains_key(v) || lo <= v < hi
            &&& r != -1 && size >= 0 ==> final(ms).areas@.last().perm == crate::page_table::PTE_R | crate::page_table::PTE_W | PTE_U
                && forall|v: u64| lo <= v < hi ==> #[trigger] final(ms).areas@.last().claims(v)
            &&& r != -1 && size < 0 ==> forall|v: u64| #[trigger] final(ms).page_table.view().contains_key(v)
                <==> old(ms).page_table.view().contains_key(v) && !(hi <= v < lo)
            &&& r != -1 ==> forall|v: u64| #[trigger] final(ms).page_table.view().contains_key(v)
                && old(ms).page_table.view().contains_key(v) ==> final(ms).page_table.view()[v] == old(ms).page_table.view()[v]
        }),
{
    match ms.change_program_brk(size, alloc) {
        Some(old_brk) => old_brk as i64,
        None => -1,
    }
}


/// The slice of page `first + k` that the byte range `[start, end)` covers,
/// as offsets `(begin, stop)` within the page.
pub open spec fn piece(start: int, end: int, k: int) -> (int, int) {
    let page = start / PAGE_SIZE as int + k;
    let lo = if k == 0 { start } else { page * PAGE_SIZE as int };
    let hi = if end < (page + 1) * PAGE_SIZE as int { end } else { (page + 1) * PAGE_SIZE as int };
    (lo - page * PAGE_SIZE as int, hi - page * PAGE_SIZE as int)
}

/// The pieces of user range `[start, start + len)`, one per page from low to
/// high addresses: the frame that backs the page and the offsets within it.
/// Every page of the range must be mapped.
pub fn translated_byte_buffer(ms: &MemorySet, start: u64, len: u64) -> (r: Vec<(u64, usize, usize)>)
    requires
        ms.wf(),
        start + len <= MAXVA,
        forall|v: u64| start as int / PAGE_SIZE as int <= v < end_page(start + len)
            ==> #[trigger] ms.page_table.view().contains_key(v),
    ensures
        r@.len() == if len == 0 { 0 } else { end_page(start + len) - start as int / PAGE_SIZE as int },
        forall|k: int| 0 <= k < r@.len() ==> {
            let v = (start as int / PAGE_SIZE as int + k) as u64;
            &&& (#[trigger] r@[k]).0 == crate::page_table::ppn_of(ms.page_table.view()[v].bits)
            &&& (r@[k].1 as int, r@[k].2 as int) == piece(start as int, start + len, k)
        },
{
    let end = start + len;
    let first = start / PAGE_SIZE;
    let mut v: Vec<(u64, usize, usize)> = Vec::new();
    let mut cur = start;
    while cur < end
        invariant
            end == start + len,
            end <= MAXVA,
            first == start / PAGE_SIZE,
            ms.wf(),
            forall|u: u64| start as int / PAGE_SIZE as int <= u < end_page(start + len)
                ==> #[trigger] ms.page_table.view().contains_key(u),
            start <= cur <= end,
            v@.len() == 0 ==> cur == start,
            v@.len() > 0 ==> cur > start,
            v@.len() > 0 && cur < end ==> cur == (first + v@.len()) * PAGE_SIZE as int,
            v@.len() > 0 ==> cur > (first + v@.len() - 1) * PAGE_SIZE as int,
            v@.len() > 0 ==> cur <= (first + v@.len()) * PAGE_SIZE as int,
            v@.len() == 0 || cur == end || cur as int % PAGE_SIZE as int == 0,
            cur < end ==> cur as int / PAGE_SIZE as int == first + v@.len(),
            forall|k: int| 0 <= k < v@.len() ==> {
                let vp = (start as int / PAGE_SIZE as int + k) as u64;
                &&& (#[trigger] v@[k]).0 == crate::page_table::ppn_of(ms.page_table.view()[vp].bits)
                &&& (v@[k].1 as int, v@[k].2 as int) == piece(start as int, start + len, k)
            },
        decreases end - cur,
    {
        let vpn = cur / PAGE_SIZE;
        let next = (vpn + 1) * PAGE_SIZE;
        let stop = if end < next { end } else { next };
        assert(vpn < end_page(start + len)) by {
            assert(cur < end);
        }
        let pte = ms.translate(vpn).unwrap();
        let ghost k = v@.len() as int;
        v.push((pte.ppn(), (cur - vpn * PAGE_SIZE) as usize, (stop - vpn * PAGE_SIZE) as usize));
        proof {
            assert(piece(start as int, start + len, k) == ((cur - vpn * PAGE_SIZE) as int, (stop - vpn * PAGE_SIZE) as int));
        }
        cur = stop;
    }
    proof {
        if len > 0 {
            let n = v@.len() as int;
            let f = first as int;
            let e = end as int;
            assert(n > 0);
            assert((e + 4095) / 4096 == f + n) by (nonlinear_arith)
                requires
                    (f + n - 1) * 4096 < e,
                    e <= (f + n) * 4096,
            ;
            assert(end_page(start + len) == (e + 4095) / 4096);
            assert(f == start as int / PAGE_SIZE as int);
            assert(v@.len() == end_page(start + len) - start as int / PAGE_SIZE as int);
        } else {
            assert(cur == start);
            assert(v@.len() == 0) by {
                if v@.len() > 0 {
                    assert(cur > start);
                }
            }
        }
    }
    v
}


impl MemorySet {
    /// Gives back every mapped page and its frame and forgets the areas; the
    /// page-table frames stay. Used when a process exits.
    pub fn recycle_data_pages(&mut self, alloc: &mut StackFrameAllocator)
        requires
            old(self).wf(),
            old(alloc).wf(),
        ensures
            final(self).wf(),
            final(alloc).wf(),
            final(self).page_table.view().dom() == Set::<u64>::empty(),
            final(self).areas@.len() == 0,
            final(self).heap_bottom == old(self).heap_bottom,
            final(self).program_brk == old(self).program_brk,
            final(alloc).free_count() >= old(alloc).free_count(),
    {
        let n = self.areas.len();
        let mut i: usize = 0;
        while i < n
            invariant
                self.wf(),
                alloc.wf(),
                alloc.free_count() >= old(alloc).free_count(),
                alloc.spec_end() == old(alloc).spec_end(),
                n == self.areas@.len(),
                i <= n,
                self.heap_bottom == old(self).heap_bottom,
                self.program_brk == old(self).program_brk,
                forall|j: int, u: u64| 0 <= j < i ==> !#[trigger] self.areas@[j].claims(u),
            decreases n - i,
        {
            let start = self.areas[i].start_vpn;
            let end = self.areas[i].end_vpn;
            let mut v = start;
            while v < end
                invariant
                    self.wf(),
                    alloc.wf(),
                    alloc.free_count() >= old(alloc).free_count(),
                    alloc.spec_end() == old(alloc).spec_end(),
                    n == self.areas@.len(),
                    i < n,
                    start == self.areas@[i as int].start_vpn,
                    end == self.areas@[i as int].end_vpn,
                    start <= v <= end,
                    self.heap_bottom == old(self).heap_bottom,
                    self.program_brk == old(self).program_brk,
                    forall|j: int, u: u64| 0 <= j < i ==> !#[trigger] self.areas@[j].claims(u),
                    forall|u: u64| u < v ==> !#[trigger] self.areas@[i as int].claims(u),
                decreases end - v,
            {
                let claimed = self.areas[i].frames[(v - start) as usize].is_some();
                if claimed {
                    assert(self.areas@[i as int].claims(v));
                    assert(self.page_table.view().contains_key(v));
                    self.unmap_page(v, alloc);
                }
                v = v + 1;
            }
            i = i + 1;
        }
        let ghost pt = self.page_table.view();
        self.areas = Vec::new();
        proof {
            assert(pt.dom() =~= Set::<u64>::empty()) by {
                assert forall|u: u64| !pt.dom().contains(u) by {
                    if pt.contains_key(u) {
                        assert(false);
                    }
                }
            }
        }
    }
}


/// Pages spanned by the areas of `a`, holes included.
pub open spec fn span(a: Seq<MapArea>) -> int
    decreases a.len(),
{
    if a.len() == 0 {
        0
    } else {
        span(a.drop_last()) + (a.last().end_vpn - a.last().start_vpn)
    }
}

proof fn lemma_span_prefix(a: Seq<MapArea>, i: int)
    requires
        0 <= i <= a.len(),
        forall|j: int| 0 <= j < a.len() ==> (#[trigger] a[j]).start_vpn <= a[j].end_vpn,
    ensures
        0 <= span(a.take(i)) <= span(a),
    decreases a.len(),
{
    if i == a.len() {
        assert(a.take(i) =~= a);
        if a.len() > 0 {
            lemma_span_prefix(a.drop_last(), a.len() - 1);
            assert(a.drop_last().take(a.len() - 1) =~= a.drop_last());
        }
    } else {
        assert(a.drop_last().take(i) =~= a.take(i));
        lemma_span_prefix(a.drop_last(), i);
    }
}

impl MemorySet {
    /// The address space of a forked child: the same areas (ranges,
    /// permissions and the pages each backs), every backed page on a fresh
    /// frame of its own, and the same heap bounds.
    pub fn from_existed_user(parent: &MemorySet, alloc: &mut StackFrameAllocator) -> (r: MemorySet)
        requires
            parent.wf(),
            old(alloc).wf(),
            old(alloc).spec_end() <= PPN_LIMIT,
            old(alloc).free_count() >= 1 + 3 * span(parent.areas@),
        ensures
            r.wf(),
            final(alloc).wf(),
            final(alloc).spec_end() == old(alloc).spec_end(),
            r.heap_bottom == parent.heap_bottom,
            r.program_brk == parent.program_brk,
            r.areas@.len() == parent.areas@.len(),
            forall|i: int| 0 <= i < r.areas@.len() ==> (#[trigger] r.areas@[i]).start_vpn == parent.areas@[i].start_vpn
                && r.areas@[i].end_vpn == parent.areas@[i].end_vpn && r.areas@[i].perm == parent.areas@[i].perm,
            forall|i: int, v: u64| 0 <= i < r.areas@.len() ==> (#[trigger] r.areas@[i].claims(v) <==> parent.areas@[i].claims(v)),
            forall|v: u64| #[trigger] r.page_table.view().contains_key(v) <==> parent.page_table.view().contains_key(v),
    {
        let ghost pa = parent.areas@;
        proof {
            lemma_span_prefix(pa, 0);
            assert(pa.take(0) =~= Seq::<MapArea>::empty());
        }
        let mut child = MemorySet::new_bare(alloc, parent.heap_bottom);
        child.program_brk = parent.program_brk;
        let n = parent.areas.len();
        let mut i: usize = 0;
        while i < n
            invariant
                parent.wf(),
                pa == parent.areas@,
                n == pa.len(),
                i <= n,
                child.wf(),
                child.heap_bottom == parent.heap_bottom,
                child.program_brk == parent.program_brk,
                child.areas@.len() == i,
                forall|j: int| 0 <= j < i ==> (#[trigger] child.areas@[j]).start_vpn == pa[j].start_vpn
                    && child.areas@[j].end_vpn == pa[j].end_vpn && child.areas@[j].perm == pa[j].perm,
                forall|j: int, v: u64| 0 <= j < i ==> (#[trigger] child.areas@[j].claims(v) <==> pa[j].claims(v)),
                forall|v: u64| #[trigger] child.page_table.view().contains_key(v) <==> exists|j: int| 0 <= j < i && #[trigger] pa[j].claims(v),
                alloc.wf(),
                alloc.spec_end() == old(alloc).spec_end(),
                alloc.spec_end() <= PPN_LIMIT,
                alloc.free_count() >= 3 * (span(pa) - span(pa.take(i as int))),
            decreases n - i,
        {
            let start = parent.areas[i].start_vpn;
            let end = parent.areas[i].end_vpn;
            let perm = parent.areas[i].perm;
            let mut mask: Vec<bool> = Vec::new();
            let mut k: usize = 0;
            let len = parent.areas[i].frames.len();
            while k < len
                invariant
                    k <= len,
                    len == pa[i as int].frames@.len(),
                    i < n,
                    n == pa.len(),
                    pa == parent.areas@,
                    forall|q: int| 0 <= q < k ==> mask@[q] == (#[trigger] pa[i as int].frames@[q]) is Some,
                    mask@.len() == k,
                decreases len - k,
            {
                mask.push(parent.areas[i].frames[k].is_some());
                k = k + 1;
            }
            proof {
                assert(pa.take(i + 1).drop_last() =~= pa.take(i as int));
                lemma_span_prefix(pa, i + 1);
                assert forall|v: u64| start <= v < end && mask@[v - start] implies !#[trigger] child.page_table.view().contains_key(v) by {
                    assert(pa[i as int].claims(v));
                    if child.page_table.view().contains_key(v) {
                        let j = choose|j: int| 0 <= j < i && #[trigger] pa[j].claims(v);
                        assert(parent.areas@[j].claims(v));
                        assert(parent.areas@[i as int].claims(v));
                    }
                }
            }
            let ghost before = child;
            child.insert_area_masked(start, end, perm, &mask, alloc);
            proof {
                assert forall|j: int, v: u64| 0 <= j < i + 1 implies (#[trigger] child.areas@[j].claims(v) <==> pa[j].claims(v)) by {
                    if j < i {
                        assert(child.areas@[j] == before.areas@[j]);
                    } else {
                        assert(child.areas@[j] == child.areas@.last());
                    }
                }
                assert forall|j: int| 0 <= j < i + 1 implies (#[trigger] child.areas@[j]).start_vpn == pa[j].start_vpn
                    && child.areas@[j].end_vpn == pa[j].end_vpn && child.areas@[j].perm == pa[j].perm by {
                    if j < i {
                        assert(child.areas@[j] == before.areas@[j]);
                    }
                }
                assert forall|v: u64| #[trigger] child.page_table.view().contains_key(v) <==> exists|j: int| 0 <= j < i + 1 && #[trigger] pa[j].claims(v) by {
                    if pa[i as int].claims(v) {
                        assert(start <= v < end && mask@[v - start]);
                    }
                    if exists|j: int| 0 <= j < i + 1 && #[trigger] pa[j].claims(v) {
                        let j = choose|j: int| 0 <= j < i + 1 && #[trigger] pa[j].claims(v);
                        if j < i {
                            assert(before.page_table.view().contains_key(v));
                        }
                    }
                }
            }
            i = i + 1;
        }
        proof {
            assert forall|v: u64| #[trigger] child.page_table.view().contains_key(v) <==> parent.page_table.view().contains_key(v) by {
                if parent.page_table.view().contains_key(v) {
                    let j = choose|j: int| 0 <= j < pa.len() && #[trigger] pa[j].claims(v);
                }
            }
        }
        child
    }
}

} // verus!
