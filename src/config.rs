use vstd::prelude::*;

verus! {

/// Bytes in one page.
pub const PAGE_SIZE: u64 = 4096;

/// Bits of the in-page offset of an address.
pub const PAGE_SIZE_BITS: u64 = 12;

/// First virtual address past the user-addressable range (SV39, lower half).
pub const MAXVA: u64 = 0x40_0000_0000;

/// Bytes of one kernel stack (guard page not included).
pub const KERNEL_STACK_SIZE: u64 = 8192;

/// Virtual address of the trampoline page, the last page of the address space.
pub const TRAMPOLINE: u64 = 0xffff_ffff_ffff_f000;

/// Virtual address of the first trap-context page, just below the trampoline.
pub const TRAP_CONTEXT_BASE: u64 = 0xffff_ffff_ffff_e000;

/// Stride scheduling numerator: a dispatch adds `BIG_STRIDE / priority`.
pub const BIG_STRIDE: u64 = 65536;

/// Priority a new task starts with.
pub const DEFAULT_PRIORITY: u64 = 16;

/// Timer ticks per second of the machine's clock.
pub const CLOCK_FREQ: u64 = 12500000;

/// Timer interrupts per second.
pub const TICKS_PER_SEC: u64 = 100;

/// Bytes in one disk block.
pub const BLOCK_SZ: usize = 512;

} // verus!
