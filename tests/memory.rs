use kernel_core::frame_allocator::StackFrameAllocator;
use kernel_core::id::{kernel_stack_position, RecycleAllocator};
use kernel_core::memory_set::{sys_mmap, sys_munmap, sys_sbrk, translated_byte_buffer, MemorySet};
use kernel_core::page_table::{
    ceil, floor, indexes, page_offset, token_of, PageTableEntry, PTE_R, PTE_U, PTE_V, PTE_W, PTE_X,
};

#[test]
fn frames_come_back_last_freed_first() {
    let mut a = StackFrameAllocator::new(100, 105);
    let mut held = Vec::new();
    for i in 0..5 {
        let f = a.allocate().unwrap();
        assert_eq!(f.ppn(), 100 + i);
        held.push(f);
    }
    assert!(a.allocate().is_none());
    assert_eq!(a.free_frames(), 0);
    let f2 = held.remove(2);
    a.dealloc(f2);
    assert_eq!(a.free_frames(), 1);
    assert_eq!(a.allocate().unwrap().ppn(), 102);
}

#[test]
fn frame_count_is_conserved() {
    let mut a = StackFrameAllocator::new(0, 8);
    let mut held = Vec::new();
    for _ in 0..3 {
        held.push(a.allocate().unwrap());
    }
    let f = held.pop().unwrap();
    a.dealloc(f);
    // 2 live + 1 recycled + 5 untouched.
    assert_eq!(held.len() + a.free_frames(), 8);
}

#[test]
fn checked_dealloc_refuses_unknown_frames() {
    let mut a = StackFrameAllocator::new(10, 12);
    let f = a.allocate().unwrap();
    assert!(a.dealloc_checked(f));
    let g = a.allocate().unwrap();
    assert_eq!(g.ppn(), 10);
    assert!(a.dealloc_checked(g));
}

#[test]
fn recycled_ids_come_back() {
    let mut ids = RecycleAllocator::new();
    assert_eq!(ids.allocate(), 0);
    assert_eq!(ids.allocate(), 1);
    assert_eq!(ids.allocate(), 2);
    ids.dealloc(1);
    assert_eq!(ids.allocate(), 1);
    assert_eq!(ids.allocate(), 3);
}

#[test]
fn kernel_stack_slots() {
    assert_eq!(kernel_stack_position(0), (0xffff_ffff_ffff_f000 - 8192, 0xffff_ffff_ffff_f000));
    let (b, t) = kernel_stack_position(2);
    assert_eq!(t, 0xffff_ffff_ffff_f000 - 2 * 12288);
    assert_eq!(b, t - 8192);
}

#[test]
fn page_table_entry_fields() {
    let e = PageTableEntry::new(0x8_0123, PTE_R | PTE_W | PTE_V);
    assert_eq!(e.bits, (0x8_0123u64 << 10) | 7);
    assert_eq!(e.ppn(), 0x8_0123);
    assert_eq!(e.flags(), 7);
    assert!(e.is_valid() && e.readable() && e.writable() && !e.executable());
    let z = PageTableEntry::empty();
    assert!(!z.is_valid());
    assert_eq!(z.ppn(), 0);
}

#[test]
fn address_arithmetic() {
    assert_eq!(indexes(0b101_000000011_000000111), [5, 3, 7]);
    assert_eq!(floor(0x1fff), 1);
    assert_eq!(ceil(0x1001), 2);
    assert_eq!(ceil(0x2000), 2);
    assert_eq!(page_offset(0x1234), 0x234);
    assert_eq!(token_of(0x80), (8u64 << 60) | 0x80);
}

#[test]
fn mmap_maps_each_page_to_a_fresh_frame() {
    let mut a = StackFrameAllocator::new(0x100, 0x200);
    let mut ms = MemorySet::new_bare(&mut a, 0x4000_0000);
    assert_eq!(sys_mmap(&mut ms, &mut a, 0x10000, 0x2001, 3), 0);
    let mut frames = Vec::new();
    for vpn in 0x10..0x13u64 {
        let e = ms.translate(vpn).unwrap();
        assert!(e.is_valid() && e.readable() && e.writable() && !e.executable());
        assert_eq!(e.flags() & PTE_U, PTE_U);
        frames.push(e.ppn());
    }
    assert!(ms.translate(0x13).is_none());
    frames.sort();
    frames.dedup();
    assert_eq!(frames.len(), 3);
    assert_eq!(ms.areas.len(), 1);
    assert_eq!(ms.areas[0].start_vpn, 0x10);
    assert_eq!(ms.areas[0].end_vpn, 0x13);
    assert_eq!(ms.areas[0].perm, (3 << 1) | PTE_U);
}

#[test]
fn mmap_rejects_bad_requests() {
    let mut a = StackFrameAllocator::new(0x100, 0x200);
    let mut ms = MemorySet::new_bare(&mut a, 0x4000_0000);
    assert_eq!(sys_mmap(&mut ms, &mut a, 0x10001, 0x1000, 3), -1);
    assert_eq!(sys_mmap(&mut ms, &mut a, 0x10000, 0x1000, 8 | 1), -1);
    assert_eq!(sys_mmap(&mut ms, &mut a, 0x10000, 0x1000, 0), -1);
    assert_eq!(sys_mmap(&mut ms, &mut a, 0x40_0000_0000, 0x1000, 1), -1);
    assert_eq!(sys_mmap(&mut ms, &mut a, 0x10000, 0x1000, 4), 0);
    assert_eq!(sys_mmap(&mut ms, &mut a, 0xf000, 0x2000, 1), -1);
    assert!(ms.translate(0xf).is_none());
    let e = ms.translate(0x10).unwrap();
    assert!(e.executable() && !e.readable());
    assert_eq!(e.flags() & PTE_X, PTE_X);
}

#[test]
fn munmap_frees_pages() {
    let mut a = StackFrameAllocator::new(0x100, 0x200);
    let mut ms = MemorySet::new_bare(&mut a, 0x4000_0000);
    assert_eq!(sys_mmap(&mut ms, &mut a, 0x10000, 0x3000, 3), 0);
    let free = a.free_frames();
    assert_eq!(sys_munmap(&mut ms, &mut a, 0x11000, 0x1000), 0);
    assert!(ms.translate(0x11).is_none());
    assert!(ms.translate(0x10).is_some());
    assert_eq!(a.free_frames(), free + 1);
    assert_eq!(sys_munmap(&mut ms, &mut a, 0x10000, 0x2000), -1);
    assert_eq!(sys_munmap(&mut ms, &mut a, 0x10800, 0x100), -1);
    assert!(ms.translate(0x10).is_some());
    // The freed page can be mapped again.
    assert_eq!(sys_mmap(&mut ms, &mut a, 0x11000, 0x1000, 1), 0);
}

#[test]
fn program_break_moves() {
    let mut a = StackFrameAllocator::new(0x100, 0x200);
    let mut ms = MemorySet::new_bare(&mut a, 0x10000);
    assert_eq!(sys_sbrk(&mut ms, &mut a, -1), -1);
    assert_eq!(sys_sbrk(&mut ms, &mut a, 0x1800), 0x10000);
    assert!(ms.translate(0x10).is_some());
    assert!(ms.translate(0x11).is_some());
    assert!(ms.translate(0x12).is_none());
    assert_eq!(sys_sbrk(&mut ms, &mut a, -0x1000), 0x11800);
    assert_eq!(ms.program_brk, 0x10800);
    assert!(ms.translate(0x10).is_some());
    assert!(ms.translate(0x11).is_none());
}

#[test]
fn user_range_is_cut_at_page_boundaries() {
    let mut a = StackFrameAllocator::new(0x100, 0x200);
    let mut ms = MemorySet::new_bare(&mut a, 0x4000_0000);
    assert_eq!(sys_mmap(&mut ms, &mut a, 0x10000, 0x3000, 3), 0);
    let p10 = ms.translate(0x10).unwrap().ppn();
    let p11 = ms.translate(0x11).unwrap().ppn();
    let pieces = translated_byte_buffer(&ms, 0x10ff0, 0x20);
    assert_eq!(pieces, vec![(p10, 0xff0, 0x1000), (p11, 0, 0x10)]);
    assert_eq!(translated_byte_buffer(&ms, 0x10000, 0), vec![]);
    let whole = translated_byte_buffer(&ms, 0x10000, 0x2000);
    assert_eq!(whole, vec![(p10, 0, 0x1000), (p11, 0, 0x1000)]);
}

#[test]
fn munmap_refuses_range_past_maxva() {
    let mut a = StackFrameAllocator::new(0x100, 0x200);
    let mut ms = MemorySet::new_bare(&mut a, 0x4000_0000);
    let top = 0x40_0000_0000usize - 0x1000;
    assert_eq!(sys_mmap(&mut ms, &mut a, top, 0x1000, 3), 0);
    assert_eq!(sys_munmap(&mut ms, &mut a, top, 0x2000), -1);
    assert!(ms.translate((top / 0x1000) as u64).is_some());
    assert_eq!(sys_munmap(&mut ms, &mut a, top, 0x1000), 0);
}

#[test]
fn recycling_frees_every_data_page() {
    let mut a = StackFrameAllocator::new(0x100, 0x200);
    let mut ms = MemorySet::new_bare(&mut a, 0x4000_0000);
    let before = a.free_frames();
    assert_eq!(sys_mmap(&mut ms, &mut a, 0x10000, 0x3000, 3), 0);
    assert_eq!(sys_mmap(&mut ms, &mut a, 0x20000, 0x1000, 1), 0);
    let used = before - a.free_frames();
    ms.recycle_data_pages(&mut a);
    assert!(ms.areas.is_empty());
    assert!(ms.translate(0x10).is_none());
    assert!(ms.translate(0x20).is_none());
    // The 4 data frames come back; the interior page-table frames stay.
    assert_eq!(before - a.free_frames(), used - 4);
}

#[test]
fn fork_copy_has_same_areas_on_fresh_frames() {
    let mut a = StackFrameAllocator::new(0x100, 0x300);
    let mut ms = MemorySet::new_bare(&mut a, 0x4000_0000);
    assert_eq!(sys_mmap(&mut ms, &mut a, 0x10000, 0x3000, 3), 0);
    assert_eq!(sys_munmap(&mut ms, &mut a, 0x11000, 0x1000), 0);
    assert_eq!(sys_mmap(&mut ms, &mut a, 0x11000, 0x1000, 1), 0);
    let child = MemorySet::from_existed_user(&ms, &mut a);
    assert_eq!(child.areas.len(), 2);
    for i in 0..2 {
        assert_eq!(child.areas[i].start_vpn, ms.areas[i].start_vpn);
        assert_eq!(child.areas[i].end_vpn, ms.areas[i].end_vpn);
        assert_eq!(child.areas[i].perm, ms.areas[i].perm);
    }
    assert!(child.areas[0].frames[1].is_none());
    for vpn in 0x10..0x13u64 {
        let p = ms.translate(vpn).unwrap();
        let c = child.translate(vpn).unwrap();
        assert_ne!(p.ppn(), c.ppn());
        assert_eq!(p.flags(), c.flags());
    }
    assert_eq!(child.heap_bottom, ms.heap_bottom);
}

#[test]
fn shrinking_break_unmaps_released_pages() {
    let mut a = StackFrameAllocator::new(0x100, 0x200);
    let mut ms = MemorySet::new_bare(&mut a, 0x10000);
    assert_eq!(sys_sbrk(&mut ms, &mut a, 0x3000), 0x10000);
    assert!(ms.translate(0x12).is_some());
    assert_eq!(sys_sbrk(&mut ms, &mut a, -0x2000), 0x13000);
    assert!(ms.translate(0x10).is_some());
    assert!(ms.translate(0x11).is_none());
    assert!(ms.translate(0x12).is_none());
}
