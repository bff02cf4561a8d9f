//! Physical and virtual addresses and page numbers of the Sv39 scheme.
use vstd::prelude::*;
use crate::config::{PAGE_SIZE, PAGE_SIZE_BITS};

verus! {

/// Width of a physical address.
pub const PA_WIDTH_SV39: u64 = 56;
/// Width of a virtual address.
pub const VA_WIDTH_SV39: u64 = 39;
/// Width of a physical page number.
pub const PPN_WIDTH_SV39: u64 = 44;
/// Width of a virtual page number.
pub const VPN_WIDTH_SV39: u64 = 27;

/// A physical address.
#[derive(Clone, Copy, PartialEq, Eq, Structural, Debug)]
pub struct PhysAddr(pub u64);

/// A virtual address.
#[derive(Clone, Copy, PartialEq, Eq, Structural, Debug)]
pub struct VirtAddr(pub u64);

/// A physical page number.
#[derive(Clone, Copy, PartialEq, Eq, Structural, Debug)]
pub struct PhysPageNum(pub u64);

/// A virtual page number.
#[derive(Clone, Copy, PartialEq, Eq, Structural, Debug)]
pub struct VirtPageNum(pub u64);

/// Number of the page that holds byte `a`.
pub open spec fn floor_page(a: int) -> int {
    a / PAGE_SIZE as int
}

/// Number of the first page boundary at or above `a`.
pub open spec fn ceil_page(a: int) -> int {
    if a == 0 { 0 } else { (a - 1 + PAGE_SIZE as int) / PAGE_SIZE as int }
}

impl PhysAddr {
    /// Keeps the low 56 bits of `v`.
    pub fn from_u64(v: u64) -> (r: PhysAddr)
        ensures
            r.0 == v as int % 0x100_0000_0000_0000,
    {
        assert(v & 0xff_ffff_ffff_ffff == v % 0x100_0000_0000_0000) by (bit_vector);
        PhysAddr(v & 0xff_ffff_ffff_ffff)
    }

    /// Offset of the address inside its page.
    pub fn page_offset(&self) -> (r: u64)
        ensures
            r == self.0 % PAGE_SIZE,
    {
        let v = self.0;
        assert(v & 0xfff == v % 4096) by (bit_vector);
        v & (PAGE_SIZE - 1)
    }

    /// Page that holds the address.
    pub fn floor(&self) -> (r: PhysPageNum)
        ensures
            r.0 == floor_page(self.0 as int),
    {
        PhysPageNum(self.0 / PAGE_SIZE)
    }

    /// First page boundary at or above the address.
    pub fn ceil(&self) -> (r: PhysPageNum)
        requires
            self.0 <= u64::MAX - PAGE_SIZE + 1,
        ensures
            r.0 == ceil_page(self.0 as int),
    {
        if self.0 == 0 {
            PhysPageNum(0)
        } else {
            PhysPageNum((self.0 - 1 + PAGE_SIZE) / PAGE_SIZE)
        }
    }

    /// Whether the address is at the start of a page.
    pub fn aligned(&self) -> (r: bool)
        ensures
            r == (self.0 % PAGE_SIZE == 0),
    {
        self.page_offset() == 0
    }
}

impl PhysPageNum {
    /// Keeps the low 44 bits of `v`.
    pub fn from_u64(v: u64) -> (r: PhysPageNum)
        ensures
            r.0 == v as int % 0x1000_0000_0000,
    {
        assert(v & 0xfff_ffff_ffff == v % 0x1000_0000_0000) by (bit_vector);
        PhysPageNum(v & 0xfff_ffff_ffff)
    }

    /// Address of the first byte of the page.
    pub fn to_pa(&self) -> (r: PhysAddr)
        requires
            self.0 < 0x10_0000_0000_0000,
        ensures
            r.0 == self.0 * PAGE_SIZE,
    {
        let v = self.0;
        assert(v < 0x10_0000_0000_0000 ==> v << 12 == v * 4096) by (bit_vector);
        PhysAddr(v << PAGE_SIZE_BITS)
    }
}

impl VirtAddr {
    /// Keeps the low 39 bits of `v`.
    pub fn from_u64(v: u64) -> (r: VirtAddr)
        ensures
            r.0 == v as int % 0x80_0000_0000,
    {
        assert(v & 0x7f_ffff_ffff == v % 0x80_0000_0000) by (bit_vector);
        VirtAddr(v & 0x7f_ffff_ffff)
    }

    /// The address as a 64-bit value, sign-extended from bit 38.
    pub fn to_u64(&self) -> (r: u64)
        ensures
            self.0 >= 0x40_0000_0000 ==> r == (self.0 | 0xffff_ff80_0000_0000),
            self.0 < 0x40_0000_0000 ==> r == self.0,
    {
        if self.0 >= 0x40_0000_0000 {
            self.0 | 0xffff_ff80_0000_0000
        } else {
            self.0
        }
    }

    /// Offset of the address inside its page.
    pub fn page_offset(&self) -> (r: u64)
        ensures
            r == self.0 % PAGE_SIZE,
    {
        let v = self.0;
        assert(v & 0xfff == v % 4096) by (bit_vector);
        v & (PAGE_SIZE - 1)
    }

    /// Page that holds the address.
    pub fn floor(&self) -> (r: VirtPageNum)
        ensures
            r.0 == floor_page(self.0 as int),
    {
        VirtPageNum(self.0 / PAGE_SIZE)
    }

    /// First page boundary at or above the address.
    pub fn ceil(&self) -> (r: VirtPageNum)
        requires
            self.0 <= u64::MAX - PAGE_SIZE + 1,
        ensures
            r.0 == ceil_page(self.0 as int),
    {
        if self.0 == 0 {
            VirtPageNum(0)
        } else {
            VirtPageNum((self.0 - 1 + PAGE_SIZE) / PAGE_SIZE)
        }
    }

    /// Whether the address is at the start of a page.
    pub fn aligned(&self) -> (r: bool)
        ensures
            r == (self.0 % PAGE_SIZE == 0),
    {
        self.page_offset() == 0
    }
}

impl VirtPageNum {
    /// Address of the first byte of the page.
    pub fn to_va(&self) -> (r: VirtAddr)
        requires
            self.0 < 0x10_0000_0000_0000,
        ensures
            r.0 == self.0 * PAGE_SIZE,
    {
        let v = self.0;
        assert(v < 0x10_0000_0000_0000 ==> v << 12 == v * 4096) by (bit_vector);
        VirtAddr(v << PAGE_SIZE_BITS)
    }

    /// The page that starts at `va`, which must be page aligned.
    pub fn from_va(va: VirtAddr) -> (r: VirtPageNum)
        requires
            va.0 % PAGE_SIZE == 0,
        ensures
            r.0 == floor_page(va.0 as int),
    {
        va.floor()
    }

    /// Index of the page in each of the three levels of a table, top level first.
    pub fn indexes(&self) -> (r: [u64; 3])
        ensures
            r@.len() == 3,
            r@[0] == (self.0 >> 18u64) & 511,
            r@[1] == (self.0 >> 9u64) & 511,
            r@[2] == self.0 & 511,
            r@[0] < 512 && r@[1] < 512 && r@[2] < 512,
    {
        let v = self.0;
        assert((v >> 18u64) & 511 < 512 && (v >> 9u64) & 511 < 512 && v & 511 < 512) by (bit_vector);
        [(v >> 18u64) & 511, (v >> 9u64) & 511, v & 511]
    }

    /// Moves to the next page.
    pub fn step(&mut self)
        requires
            old(self).0 < u64::MAX,
        ensures
            final(self).0 == old(self).0 + 1,
    {
        self.0 = self.0 + 1;
    }
}

/// A range `[start, end)` of virtual pages.
#[derive(Clone, Copy, PartialEq, Eq, Structural, Debug)]
pub struct VPNRange {
    l: VirtPageNum,
    r: VirtPageNum,
}

impl VPNRange {
    /// First page of the range.
    pub closed spec fn start(self) -> int {
        self.l.0 as int
    }

    /// One past the last page of the range.
    pub closed spec fn end(self) -> int {
        self.r.0 as int
    }

    /// The range is never reversed.
    pub open spec fn wf(self) -> bool {
        self.start() <= self.end()
    }

    /// Whether page `v` lies in the range.
    pub open spec fn contains(self, v: int) -> bool {
        self.start() <= v < self.end()
    }

    /// The range `[start, end)`; the start must not lie above the end.
    pub fn new(start: VirtPageNum, end: VirtPageNum) -> (r: VPNRange)
        requires
            start.0 <= end.0,
        ensures
            r.start() == start.0,
            r.end() == end.0,
            r.wf(),
    {
        VPNRange { l: start, r: end }
    }

    /// First page of the range.
    pub fn get_start(&self) -> (r: VirtPageNum)
        ensures
            r.0 == self.start(),
    {
        self.l
    }

    /// One past the last page of the range.
    pub fn get_end(&self) -> (r: VirtPageNum)
        ensures
            r.0 == self.end(),
    {
        self.r
    }
}

} // verus!
