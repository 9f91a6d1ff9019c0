//! SV39 page-table entries and virtual-address arithmetic.
use crate::config::PAGE_SIZE;
use vstd::prelude::*;

verus! {

/// Valid.
pub const PTE_V: u8 = 1;
/// Readable.
pub const PTE_R: u8 = 2;
/// Writable.
pub const PTE_W: u8 = 4;
/// Executable.
pub const PTE_X: u8 = 8;
/// Accessible from user mode.
pub const PTE_U: u8 = 16;
/// Global.
pub const PTE_G: u8 = 32;
/// Accessed.
pub const PTE_A: u8 = 64;
/// Dirty.
pub const PTE_D: u8 = 128;

/// Largest physical page number plus one: page numbers have 44 bits.
pub const PPN_LIMIT: u64 = 0x1000_0000_0000;

/// A page-table entry: physical page number in bits 10..54, flags in bits 0..8.
#[derive(Clone, Copy, PartialEq, Eq, Structural, Debug)]
pub struct PageTableEntry {
    pub bits: u64,
}

pub open spec fn pte_bits(ppn: u64, flags: u8) -> u64 {
    (ppn << 10u64) | (flags as u64)
}

pub open spec fn ppn_of(bits: u64) -> u64 {
    (bits >> 10u64) & 0xfff_ffff_ffffu64
}

pub open spec fn flags_of(bits: u64) -> u8 {
    (bits & 0xffu64) as u8
}

impl PageTableEntry {
    /// The entry for page `ppn` with `flags`.
    pub fn new(ppn: u64, flags: u8) -> (r: Self)
        requires
            ppn < PPN_LIMIT,
        ensures
            r.bits == pte_bits(ppn, flags),
            ppn_of(r.bits) == ppn,
            flags_of(r.bits) == flags,
    {
        let bits = (ppn << 10u64) | (flags as u64);
        let f = flags as u64;
        assert(((ppn << 10u64) | f) >> 10u64 & 0xfff_ffff_ffffu64 == ppn) by (bit_vector)
            requires
                ppn < 0x1000_0000_0000u64,
                f < 256u64,
        ;
        assert(((ppn << 10u64) | f) & 0xffu64 == f) by (bit_vector)
            requires
                f < 256u64,
        ;
        PageTableEntry { bits }
    }

    /// The all-zero entry, which is not valid.
    pub fn empty() -> (r: Self)
        ensures
            r.bits == 0,
            flags_of(r.bits) == 0,
    {
        assert(0u64 & 0xffu64 == 0u64) by (bit_vector);
        PageTableEntry { bits: 0 }
    }

    pub fn ppn(&self) -> (r: u64)
        ensures
            r == ppn_of(self.bits),
    {
        (self.bits >> 10u64) & 0xfff_ffff_ffffu64
    }

    pub fn flags(&self) -> (r: u8)
        ensures
            r == flags_of(self.bits),
    {
        (self.bits & 0xffu64) as u8
    }

    pub fn is_valid(&self) -> (r: bool)
        ensures
            r == (flags_of(self.bits) & PTE_V != 0),
    {
        self.flags() & PTE_V != 0
    }

    pub fn readable(&self) -> (r: bool)
        ensures
            r == (flags_of(self.bits) & PTE_R != 0),
    {
        self.flags() & PTE_R != 0
    }

    pub fn writable(&self) -> (r: bool)
        ensures
            r == (flags_of(self.bits) & PTE_W != 0),
    {
        self.flags() & PTE_W != 0
    }

    pub fn executable(&self) -> (r: bool)
        ensures
            r == (flags_of(self.bits) & PTE_X != 0),
    {
        self.flags() & PTE_X != 0
    }
}

/// The three 9-bit table indices of a virtual page number, root level first.
pub fn indexes(vpn: u64) -> (r: [usize; 3])
    ensures
        r[0] == (vpn >> 18u64) & 511u64,
        r[1] == (vpn >> 9u64) & 511u64,
        r[2] == vpn & 511u64,
        r[0] < 512 && r[1] < 512 && r[2] < 512,
{
    let a = (vpn >> 18u64) & 511u64;
    let b = (vpn >> 9u64) & 511u64;
    let c = vpn & 511u64;
    assert(a < 512 && b < 512 && c < 512) by (bit_vector)
        requires
            a == (vpn >> 18u64) & 511u64,
            b == (vpn >> 9u64) & 511u64,
            c == vpn & 511u64,
    ;
    [a as usize, b as usize, c as usize]
}

/// Page number holding address `va` (round down).
pub fn floor(va: u64) -> (r: u64)
    ensures
        r == va / PAGE_SIZE,
{
    va / PAGE_SIZE
}

/// First page number at or after address `va` (round up).
pub fn ceil(va: u64) -> (r: u64)
    ensures
        r == (va as int + PAGE_SIZE - 1) / (PAGE_SIZE as int),
{
    if va % PAGE_SIZE == 0 {
        va / PAGE_SIZE
    } else {
        va / PAGE_SIZE + 1
    }
}

/// Offset of `va` within its page.
pub fn page_offset(va: u64) -> (r: u64)
    ensures
        r == va % PAGE_SIZE,
{
    va % PAGE_SIZE
}

/// The `satp` value that selects SV39 paging with root table `root_ppn`.
pub fn token_of(root_ppn: u64) -> (r: u64)
    requires
        root_ppn < PPN_LIMIT,
    ensures
        r == (8u64 << 60u64) | root_ppn,
{
    (8u64 << 60u64) | root_ppn
}

} // verus!
