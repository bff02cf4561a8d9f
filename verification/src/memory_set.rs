//! Map areas and address spaces (`MemorySet`).
use vstd::prelude::*;
use std::collections::BTreeMap;
use crate::address::{VPNRange, VirtAddr, VirtPageNum, PhysAddr, PhysPageNum, floor_page, ceil_page};
use crate::config::{PAGE_SIZE, TRAMPOLINE, MEMORY_END, USER_STACK_SIZE, TRAP_CONTEXT_BASE};
use crate::elf::{elf_header, elf_program_header, elf_header_of, elf_program_header_of, ph_entry_ok, header_fits, header_accepted};
use crate::frame_allocator::{FrameTracker, Memory};
use crate::page_table::{PTEFlags, PageTable, PageTableEntry, pte_bits, vpn_key, lemma_key_indexes, translate_spec, walk, mapping, lemma_walk_key};
use crate::phys_mem::{PhysMem, lemma_same_outside_trans, lemma_same_outside_refl};

verus! {

/// How the pages of an area find their frames.
#[derive(Clone, Copy, PartialEq, Eq, Structural, Debug)]
pub enum MapType {
    /// each page is the frame with the same number
    Identical,
    /// each page gets a frame of its own from the allocator
    Framed,
}

/// Permissions of an area, with the bits of the corresponding page table flags: R W X U.
#[derive(Clone, Copy, PartialEq, Eq, Structural, Debug)]
pub struct MapPermission {
    /// the permission bits
    pub bits: u8,
}

#[allow(non_snake_case)]
impl MapPermission {
    /// Readable.
    pub fn R() -> (r: Self)
        ensures
            r.bits == 2,
    {
        MapPermission { bits: 2 }
    }

    /// Writable.
    pub fn W() -> (r: Self)
        ensures
            r.bits == 4,
    {
        MapPermission { bits: 4 }
    }

    /// Executable.
    pub fn X() -> (r: Self)
        ensures
            r.bits == 8,
    {
        MapPermission { bits: 8 }
    }

    /// Accessible in user mode.
    pub fn U() -> (r: Self)
        ensures
            r.bits == 16,
    {
        MapPermission { bits: 16 }
    }

    /// No permission.
    pub fn empty() -> (r: Self)
        ensures
            r.bits == 0,
    {
        MapPermission { bits: 0 }
    }

    /// The permissions with bits `bits`; `None` when a bit other than R, W, X, U is set.
    pub fn from_bits(bits: u8) -> (r: Option<Self>)
        ensures
            bits & 0xe1 == 0 ==> r == Some(MapPermission { bits }),
            bits & 0xe1 != 0 ==> r is None,
    {
        if bits & 0xe1 == 0 {
            Some(MapPermission { bits })
        } else {
            None
        }
    }

    /// The permission bits.
    pub fn bits(&self) -> (r: u8)
        ensures
            r == self.bits,
    {
        self.bits
    }

    /// The permissions of `self` and of `other`.
    pub fn union(self, other: Self) -> (r: Self)
        ensures
            r.bits == self.bits | other.bits,
    {
        MapPermission { bits: self.bits | other.bits }
    }

    /// Whether every permission of `other` is in `self`.
    pub fn contains(&self, other: Self) -> (r: bool)
        ensures
            r == (self.bits & other.bits == other.bits),
    {
        self.bits & other.bits == other.bits
    }
}

/// The page table entry that maps a page to frame `target` with permission bits `perm`.
pub open spec fn area_entry(target: u64, perm: u8) -> PageTableEntry {
    PageTableEntry { bits: pte_bits(target, perm | 1) }
}

/// What `MapArea::map_one` establishes, relating the area, table and memory before (`old_*`) and
/// after it.
pub open spec fn one_mapped(old_a: MapArea, a: MapArea, old_pt: PageTable, pt: PageTable, old_mem: Memory, mem: Memory, vpn: u64, r: bool) -> bool {
    &&& pt.wf(mem)
    &&& mem.wf()
    &&& a.start() == old_a.start()
    &&& a.end() == old_a.end()
    &&& a.kind() == old_a.kind()
    &&& a.perm() == old_a.perm()
    &&& mem.allocator.end() == old_mem.allocator.end()
    &&& pt.root() == old_pt.root()
    &&& old_pt.frame_set().subset_of(pt.frame_set())
    &&& forall|q: int| #[trigger] pt.frame_set().contains(q) && !old_pt.frame_set().contains(q) ==> !old_mem.allocated(q)
    &&& r ==> mem.allocator.free_count() >= old_mem.allocator.free_count() - 3
    &&& !r ==> old_mem.allocator.free_count() < 3
    &&& !r && old_a.kind() == MapType::Identical ==> mem.allocator.free_count() == 0
    &&& old_a.kind() == MapType::Identical ==> mem.allocator.free_count() >= old_mem.allocator.free_count() - 2
    &&& !r && old_a.kind() == MapType::Identical ==> old_mem.allocator.free_count() <= 1
    &&& old_a.kind() == MapType::Identical && 0 < vpn && vpn % 512 != 0
        && old_pt.view_in(old_mem.phys).contains_key(vpn_key((vpn - 1) as u64))
        ==> r && mem.allocator.free_count() == old_mem.allocator.free_count()
    &&& (old_a.kind() == MapType::Identical || !r) ==> {
        &&& a.frames() == old_a.frames()
        &&& forall|q: int| #[trigger] mem.allocated(q) == (old_mem.allocated(q) || pt.frame_set().contains(q))
        &&& old_mem.phys.same_outside(&mem.phys, pt.frame_set() + unallocated(old_mem))
    }
    &&& old_a.kind() == MapType::Framed && r ==> {
        let f = a.frames()[vpn].ppn.0 as int;
        &&& a.frames() == old_a.frames().insert(vpn, a.frames()[vpn])
        &&& !old_mem.allocated(f)
        &&& !pt.frame_set().contains(f)
        &&& mem.phys.has_frame(f)
        &&& forall|q: int| #[trigger] mem.allocated(q) == (old_mem.allocated(q) || q == f || pt.frame_set().contains(q))
        &&& old_mem.phys.same_outside(&mem.phys, pt.frame_set().insert(f))
        &&& forall|off: int| 0 <= off < PAGE_SIZE ==> #[trigger] mem.phys.byte(f, off) == 0
    }
    &&& r ==> pt.view_in(mem.phys) == old_pt.view_in(old_mem.phys).insert(
        vpn_key(vpn),
    a.entry_for(vpn),
    )
    &&& !r ==> pt.view_in(mem.phys) == old_pt.view_in(old_mem.phys)
}

/// A contiguous run of virtual pages `[start, end)` with one way of mapping and one permission.
pub struct MapArea {
    vpn_range: VPNRange,
    data_frames: BTreeMap<u64, FrameTracker>,
    map_type: MapType,
    map_perm: MapPermission,
}

impl MapArea {
    /// First page.
    pub closed spec fn start(&self) -> int {
        self.vpn_range.start()
    }

    /// One past the last page.
    pub closed spec fn end(&self) -> int {
        self.vpn_range.end()
    }

    /// How pages find frames.
    pub closed spec fn kind(&self) -> MapType {
        self.map_type
    }

    /// Permission bits.
    pub closed spec fn perm(&self) -> u8 {
        self.map_perm.bits
    }

    /// The frame of each page of a framed area.
    pub closed spec fn frames(&self) -> Map<u64, FrameTracker> {
        self.data_frames@
    }

    /// Page `v` lies in the area.
    pub open spec fn has_page(&self, v: u64) -> bool {
        self.start() <= v < self.end()
    }

    /// Frame that page `v` maps to.
    pub open spec fn target(&self, v: u64) -> u64 {
        if self.kind() == MapType::Framed {
            self.frames()[v].ppn.0
        } else {
            v
        }
    }

    /// Page table entry of page `v`.
    pub open spec fn entry_for(&self, v: u64) -> PageTableEntry {
        area_entry(self.target(v), self.perm())
    }

    /// The range is not reversed and spans at most 2^27 pages.
    pub open spec fn range_ok(&self) -> bool {
        &&& 0 <= self.start() <= self.end()
        &&& self.end() - self.start() <= 0x800_0000
        &&& self.end() <= u64::MAX
    }

    /// Frames are recorded for exactly the pages `[start, upto)` of a framed area, and for none
    /// of an identical one.
    pub open spec fn frames_upto(&self, upto: int) -> bool {
        &&& self.kind() == MapType::Framed ==> forall|v: u64|
            #[trigger] self.frames().contains_key(v) <==> self.start() <= v < upto
        &&& self.kind() == MapType::Identical ==> self.frames().dom() == Set::<u64>::empty()
    }

    /// Pages `[from, upto)` are mapped in `view` by their entries.
    pub open spec fn mapped_between(&self, view: Map<u64, PageTableEntry>, from: int, upto: int) -> bool {
        forall|v: u64|
            from <= v < upto ==> #[trigger] view.contains_key(vpn_key(v)) && view[vpn_key(v)]
                == self.entry_for(v)
    }

    /// The frames recorded for pages `[from, upto)` are handed out, in memory, outside `others`,
    /// and distinct.
    pub open spec fn frames_owned_between(&self, mem: Memory, others: Set<int>, from: int, upto: int) -> bool {
        self.kind() == MapType::Framed ==> {
            &&& forall|v: u64|
                from <= v < upto ==> {
                    &&& mem.allocated(#[trigger] self.frames()[v].ppn.0 as int)
                    &&& mem.phys.has_frame(self.frames()[v].ppn.0 as int)
                    &&& !others.contains(self.frames()[v].ppn.0 as int)
                }
            &&& forall|v: u64, w: u64|
                from <= v < upto && from <= w < upto && v != w ==> #[trigger] self.frames()[v].ppn
                    != #[trigger] self.frames()[w].ppn
        }
    }

    /// The area over the pages `[floor(start_va), ceil(end_va))`, with no frame yet.
    pub fn new(start_va: VirtAddr, end_va: VirtAddr, map_type: MapType, map_perm: MapPermission) -> (r: Self)
        requires
            floor_page(start_va.0 as int) <= ceil_page(end_va.0 as int),
            end_va.0 <= u64::MAX - PAGE_SIZE + 1,
        ensures
            r.start() == floor_page(start_va.0 as int),
            r.end() == ceil_page(end_va.0 as int),
            r.kind() == map_type,
            r.perm() == map_perm.bits,
            r.frames() == Map::<u64, FrameTracker>::empty(),
    {
        let start_vpn = start_va.floor();
        let end_vpn = end_va.ceil();
        MapArea {
            vpn_range: VPNRange::new(start_vpn, end_vpn),
            data_frames: BTreeMap::new(),
            map_type,
            map_perm,
        }
    }

    /// An area over the same pages as `another`, of the same type and permission, with no frame yet.
    pub fn from_another(another: &Self) -> (r: Self)
        requires
            another.start() <= another.end(),
        ensures
            r.start() == another.start(),
            r.end() == another.end(),
            r.kind() == another.kind(),
            r.perm() == another.perm(),
            r.frames() == Map::<u64, FrameTracker>::empty(),
    {
        MapArea {
            vpn_range: VPNRange::new(another.vpn_range.get_start(), another.vpn_range.get_end()),
            data_frames: BTreeMap::new(),
            map_type: another.map_type,
            map_perm: another.map_perm,
        }
    }

    /// First page.
    pub fn start_vpn(&self) -> (r: VirtPageNum)
        ensures
            r.0 == self.start(),
    {
        self.vpn_range.get_start()
    }

    /// The frame that the area records for page `v`, if any.
    pub fn frame_at(&self, v: u64) -> (r: Option<PhysPageNum>)
        ensures
            match r {
                Some(p) => self.frames().contains_key(v) && self.frames()[v].ppn == p,
                None => !self.frames().contains_key(v),
            },
    {
        match self.data_frames.get(&v) {
            Some(f) => Some(f.ppn),
            None => None,
        }
    }

    /// One past the last page.
    pub fn end_vpn(&self) -> (r: VirtPageNum)
        ensures
            r.0 == self.end(),
    {
        self.vpn_range.get_end()
    }

    /// Maps page `vpn` in `page_table`: to the frame with the same number for an identical area,
    /// to a fresh frame, recorded in the area, for a framed one. Returns `false`, giving back the
    /// fresh frame, when a frame cannot be had; that happens only with fewer than 3 frames free.
    pub fn map_one(&mut self, page_table: &mut PageTable, mem: &mut Memory, vpn: VirtPageNum) -> (r: bool)
        requires
            old(page_table).wf(*old(mem)),
            old(mem).wf(),
            !old(page_table).view_in(old(mem).phys).contains_key(vpn_key(vpn.0)),
            old(self).kind() == MapType::Framed ==> !old(self).frames().contains_key(vpn.0),
        ensures
            one_mapped(*old(self), *final(self), *old(page_table), *final(page_table), *old(mem), *final(mem), vpn.0, r),
    {
        let ghost mem0 = *mem;
        let ghost pt0 = *page_table;
        proof {
            pt0.lemma_frames_allocated(mem0);
        }
        let pte_flags = PTEFlags::from_bits(self.map_perm.bits).unwrap();
        if self.map_type == MapType::Identical {
            proof {
                if 0 < vpn.0 && vpn.0 % 512 != 0 && pt0.view_in(mem0.phys).contains_key(vpn_key((vpn.0 - 1) as u64)) {
                    lemma_walk_after(mem0.phys, pt0.root(), vpn.0);
                }
            }
            let r = page_table.map(mem, vpn, PhysPageNum(vpn.0), pte_flags);
            proof {
                lemma_same_outside_refl(&mem.phys, Set::<int>::empty());
                lemma_same_outside_trans(&mem0.phys, &mem.phys, &mem.phys, page_table.frame_set(), Set::<int>::empty(), page_table.frame_set() + unallocated(mem0));
            }
            return r;
        }
        match mem.frame_alloc() {
            None => {
                proof {
                    lemma_same_outside_refl(&mem.phys, page_table.frame_set() + unallocated(mem0));
                    lemma_same_outside_refl(&mem.phys, Set::<int>::empty());
                    pt0.lemma_frame_local(mem0, *mem, Set::<int>::empty());
                }
                false
            },
            Some(frame) => {
                let ppn = frame.ppn;
                let ghost f = ppn.0 as int;
                proof {
                    pt0.lemma_frame_local(mem0, *mem, set![f]);
                }
                let ghost mem1 = *mem;
                let r = page_table.map(mem, vpn, ppn, pte_flags);
                if r {
                    self.data_frames.insert(vpn.0, frame);
                    proof {
                        assert(!page_table.frame_set().contains(f));
                        assert forall|off: int| 0 <= off < PAGE_SIZE implies #[trigger] mem.phys.byte(f, off) == 0 by {
                            assert(mem1.phys.byte(f, off) == 0);
                        }
                        lemma_same_outside_trans(&mem0.phys, &mem1.phys, &mem.phys, set![f], page_table.frame_set(), page_table.frame_set().insert(f));
                        assert forall|q: int| #[trigger] mem.allocated(q) == (mem0.allocated(q) || q == f || page_table.frame_set().contains(q)) by {
                            assert(mem.allocated(q) == (mem1.allocated(q) || page_table.frame_set().contains(q)));
                        }
                    }
                    true
                } else {
                    let ghost mem2 = *mem;
                    proof {
                        assert(!page_table.frame_set().contains(f));
                        page_table.lemma_frames_allocated(mem2);
                    }
                    mem.frame_dealloc(ppn);
                    proof {
                        lemma_same_outside_refl(&mem.phys, Set::<int>::empty());
                        page_table.lemma_frame_local(mem2, *mem, Set::<int>::empty());
                        assert(unallocated(mem0).contains(f));
                        lemma_same_outside_trans(&mem0.phys, &mem1.phys, &mem2.phys, set![f], page_table.frame_set(), page_table.frame_set() + unallocated(mem0));
                        assert forall|q: int| #[trigger] mem.allocated(q) == (mem0.allocated(q) || page_table.frame_set().contains(q)) by {
                            assert(mem2.allocated(q) == (mem1.allocated(q) || page_table.frame_set().contains(q)));
                        }
                    }
                    false
                }
            },
        }
    }
}

impl MapArea {
    /// Removes the mapping of page `vpn` from `page_table`, and gives back its frame if the area
    /// records one. The page must be mapped.
    pub fn unmap_one(&mut self, page_table: &mut PageTable, mem: &mut Memory, vpn: VirtPageNum)
        requires
            old(page_table).wf(*old(mem)),
            old(mem).wf(),
            old(page_table).view_in(old(mem).phys).contains_key(vpn_key(vpn.0)),
            old(self).kind() == MapType::Identical ==> !old(self).frames().contains_key(vpn.0),
            old(self).kind() == MapType::Framed && old(self).frames().contains_key(vpn.0) ==> {
                let f = old(self).frames()[vpn.0].ppn.0 as int;
                &&& old(mem).allocated(f)
                &&& old(mem).phys.has_frame(f)
                &&& !old(page_table).frame_set().contains(f)
            },
        ensures
            final(page_table).wf(*final(mem)),
            final(mem).wf(),
            final(self).start() == old(self).start(),
            final(self).end() == old(self).end(),
            final(self).kind() == old(self).kind(),
            final(self).perm() == old(self).perm(),
            final(self).frames() == old(self).frames().remove(vpn.0),
            final(page_table).frame_set() == old(page_table).frame_set(),
            final(page_table).root() == old(page_table).root(),
            final(mem).allocator.end() == old(mem).allocator.end(),
            old(mem).phys.same_outside(&final(mem).phys, old(page_table).frame_set()),
            old(self).kind() == MapType::Framed && old(self).frames().contains_key(vpn.0) ==> forall|q: int|
                #[trigger] final(mem).allocated(q) == (old(mem).allocated(q) && q != old(self).frames()[vpn.0].ppn.0),
            !(old(self).kind() == MapType::Framed && old(self).frames().contains_key(vpn.0)) ==> forall|q: int|
                #[trigger] final(mem).allocated(q) == old(mem).allocated(q),
            !(old(self).kind() == MapType::Framed && old(self).frames().contains_key(vpn.0)) ==> final(mem).allocator == old(mem).allocator,
            final(page_table).view_in(final(mem).phys) == old(page_table).view_in(old(mem).phys).remove(vpn_key(vpn.0)),
    {
        let ghost mem0 = *mem;
        if self.map_type == MapType::Framed {
            if let Some(frame) = self.data_frames.remove(&vpn.0) {
                mem.frame_dealloc(frame.ppn);
                proof {
                    page_table.lemma_frames_allocated(mem0);
                    lemma_same_outside_refl(&mem.phys, Set::<int>::empty());
                    page_table.lemma_frame_local(mem0, *mem, Set::<int>::empty());
                }
            } else {
                proof {
                    assert(self.frames() == old(self).frames().remove(vpn.0));
                }
            }
        } else {
            proof {
                assert(self.frames() =~= old(self).frames().remove(vpn.0));
            }
        }
        let ghost mem1 = *mem;
        page_table.unmap(mem, vpn);
    }
}

/// Page numbers that differ by less than 2^27 have different low 27 bits.
pub proof fn lemma_key_injective(a: u64, b: u64)
    requires
        a < b,
        b - a < 0x800_0000,
    ensures
        vpn_key(a) != vpn_key(b),
{
    assert(a < b && b - a < 0x800_0000 ==> a & 0x7ff_ffff != b & 0x7ff_ffff) by (bit_vector);
}

/// Number of last-level tables that the pages `[from, to)` fall in, 512 pages to a table.
pub open spec fn tables_needed(from: int, to: int) -> int {
    if to <= from { 0 } else { (to - 1) / 512 - from / 512 + 1 }
}

/// Going from the pages `[from, v)` to `[from, v + 1)` adds a table exactly when `v` is the first
/// page or starts a table.
proof fn lemma_tables_step(from: int, v: int)
    requires
        0 <= from <= v,
    ensures
        tables_needed(from, v + 1) == tables_needed(from, v) + (if v == from || v % 512 == 0 { 1int } else { 0 }),
{
    if v > from {
        let q = v / 512;
        let r = v % 512;
        assert(v == 512 * q + r);
        if r == 0 {
            assert((v - 1) / 512 == q - 1);
        } else {
            assert((v - 1) / 512 == q);
        }
    }
}

/// More pages need no fewer tables.
proof fn lemma_tables_mono(from: int, a: int, b: int)
    requires
        0 <= from <= a <= b,
    ensures
        tables_needed(from, a) <= tables_needed(from, b),
        tables_needed(from, b) <= b - from,
{
    if a > from {
        assert((a - 1) / 512 <= (b - 1) / 512);
    }
    if b > from {
        let q = from / 512;
        assert(from == 512 * q + from % 512);
        assert((b - 1) / 512 * 512 <= b - 1);
    }
}

/// A page whose number is not a multiple of 512 has the upper two table entries of the page
/// before it: when that page is mapped, the walk for this one reaches a last-level entry.
proof fn lemma_walk_after(phys: PhysMem, root: int, v: u64)
    requires
        0 < v,
        v % 512 != 0,
        mapping(phys, root).contains_key(vpn_key((v - 1) as u64)),
    ensures
        walk(phys, root, v) is Some,
{
    let w = (v - 1) as u64;
    lemma_walk_key(phys, root, w);
    assert((v >> 18u64) & 511 == (w >> 18u64) & 511 && (v >> 9u64) & 511 == (w >> 9u64) & 511) by (bit_vector)
        requires
            0 < v,
            v % 512 != 0,
            w == v - 1;
}

/// The frames that `mem` does not hand out.
pub open spec fn unallocated(mem: Memory) -> Set<int> {
    Set::new(|q: int| !mem.allocated(q))
}

/// `new_view` keeps every mapping of `old_view`.
pub open spec fn view_extends(old_view: Map<u64, PageTableEntry>, new_view: Map<u64, PageTableEntry>) -> bool {
    forall|k: u64| #[trigger] old_view.contains_key(k) ==> new_view.contains_key(k) && new_view[k] == old_view[k]
}

impl MapArea {
    /// The frames that the area records.
    pub open spec fn data_ppns(&self) -> Set<int> {
        Set::new(|p: int| exists|v: u64| #[trigger] self.frames().contains_key(v) && self.frames()[v].ppn.0 == p)
    }

    /// The facts that mapping the pages `[start, upto)` of the area establishes, starting from
    /// table `pt0` in memory `mem0`.
    pub open spec fn mapped_so_far(&self, pt: &PageTable, mem: Memory, pt0: &PageTable, mem0: Memory, from: int, upto: int) -> bool {
        &&& pt.wf(mem)
        &&& mem.wf()
        &&& mem.allocator.end() == mem0.allocator.end()
        &&& pt.root() == pt0.root()
        &&& pt0.frame_set().subset_of(pt.frame_set())
        &&& forall|q: int| #[trigger] pt.frame_set().contains(q) && !pt0.frame_set().contains(q) ==> !mem0.allocated(q)
        &&& self.frames_upto(upto)
        &&& self.frames_owned_between(mem, pt.frame_set(), self.start(), upto)
        &&& self.kind() == MapType::Framed ==> forall|v: u64| from <= v < upto ==> !mem0.allocated(#[trigger] self.frames()[v].ppn.0 as int)
        &&& forall|q: int| #[trigger] mem.allocated(q) == (mem0.allocated(q) || pt.frame_set().contains(q) || self.data_ppns().contains(q))
        &&& mem0.phys.same_outside(&mem.phys, pt.frame_set() + unallocated(mem0))
        &&& view_extends(pt0.view_in(mem0.phys), pt.view_in(mem.phys))
        &&& self.mapped_between(pt.view_in(mem.phys), self.start(), upto)
        &&& forall|k: u64| #[trigger] pt.view_in(mem.phys).contains_key(k) ==> pt0.view_in(mem0.phys).contains_key(k)
            || exists|v: u64| self.start() <= v < upto && vpn_key(v) == k
    }

    /// Maps the pages `[from, to)` in `page_table`, recording their frames; the pages before
    /// `from` are already mapped and none of `[from, to)` is. Returns the first page that could
    /// not be mapped for want of a frame, or `to`; the pages before it are mapped. It stops only
    /// when fewer than 3 frames per page of `[from, to)` were free, and for an identical area only
    /// when fewer than 2 per last-level table that the pages fall in were free.
    fn map_range(&mut self, page_table: &mut PageTable, mem: &mut Memory, from: VirtPageNum, to: VirtPageNum) -> (r: VirtPageNum)
        requires
            old(page_table).wf(*old(mem)),
            old(mem).wf(),
            old(self).start() <= from.0 <= to.0,
            to.0 - old(self).start() <= 0x800_0000,
            old(self).mapped_so_far(old(page_table), *old(mem), old(page_table), *old(mem), from.0 as int, from.0 as int),
            forall|v: u64| from.0 <= v < to.0 ==> !old(page_table).view_in(old(mem).phys).contains_key(#[trigger] vpn_key(v)),
        ensures
            final(self).start() == old(self).start(),
            final(self).end() == old(self).end(),
            final(self).kind() == old(self).kind(),
            final(self).perm() == old(self).perm(),
            from.0 <= r.0 <= to.0,
            final(self).mapped_so_far(final(page_table), *final(mem), old(page_table), *old(mem), from.0 as int, r.0 as int),
            forall|v: u64| #[trigger] old(self).frames().contains_key(v) ==> final(self).frames().contains_key(v) && final(self).frames()[v] == old(self).frames()[v],
            r.0 < to.0 ==> old(mem).allocator.free_count() < 3 * (to.0 - from.0),
            r.0 < to.0 && old(self).kind() == MapType::Identical ==> final(mem).allocator.free_count() == 0,
            final(self).zeroed_between(final(mem).phys, from.0 as int, r.0 as int),
            r.0 == to.0 ==> final(mem).allocator.free_count() >= old(mem).allocator.free_count() - 3 * (to.0 - from.0),
            r.0 < to.0 && old(self).kind() == MapType::Identical ==> old(mem).allocator.free_count() < 2 * tables_needed(from.0 as int, to.0 as int),
            r.0 == to.0 && old(self).kind() == MapType::Identical ==> final(mem).allocator.free_count()
                >= old(mem).allocator.free_count() - 2 * tables_needed(from.0 as int, to.0 as int),
    {
        let ghost pt0 = *page_table;
        let ghost mem0 = *mem;
        let mut vpn = from;
        while vpn.0 < to.0
            invariant
                self.start() == old(self).start(),
                self.end() == old(self).end(),
                self.kind() == old(self).kind(),
                self.perm() == old(self).perm(),
                pt0 == *old(page_table),
                mem0 == *old(mem),
                from.0 <= vpn.0 <= to.0,
                self.start() <= from.0,
                to.0 - self.start() <= 0x800_0000,
                self.mapped_so_far(page_table, *mem, &pt0, mem0, from.0 as int, vpn.0 as int),
                forall|v: u64| from.0 <= v < to.0 ==> !pt0.view_in(mem0.phys).contains_key(#[trigger] vpn_key(v)),
                mem.allocator.free_count() >= mem0.allocator.free_count() - 3 * (vpn.0 - from.0),
                forall|v: u64| #[trigger] old(self).frames().contains_key(v) ==> self.frames().contains_key(v) && self.frames()[v] == old(self).frames()[v],
                old(self).kind() == MapType::Framed ==> forall|v: u64| #[trigger] old(self).frames().contains_key(v) ==> v < from.0,
                self.zeroed_between(mem.phys, from.0 as int, vpn.0 as int),
                self.kind() == MapType::Identical ==> mem.allocator.free_count()
                    >= mem0.allocator.free_count() - 2 * tables_needed(from.0 as int, vpn.0 as int),
                from.0 < vpn.0 ==> page_table.view_in(mem.phys).contains_key(vpn_key((vpn.0 - 1) as u64)),
            decreases to.0 - vpn.0,
        {
            let ghost pt1 = *page_table;
            let ghost mem1 = *mem;
            let ghost area1 = *self;
            proof {
                lemma_tables_step(from.0 as int, vpn.0 as int);
                lemma_tables_mono(from.0 as int, vpn.0 + 1, to.0 as int);
            }
            proof {
                // the page is not mapped yet: its key differs from the keys mapped so far
                let k = vpn_key(vpn.0);
                if page_table.view_in(mem.phys).contains_key(k) {
                    if !pt0.view_in(mem0.phys).contains_key(k) {
                        let w = choose|w: u64| self.start() <= w < vpn.0 && vpn_key(w) == k;
                        lemma_key_injective(w, vpn.0);
                    }
                    assert(false);
                }
            }
            let ok = self.map_one(page_table, mem, vpn);
            if !ok {
                proof { self.lemma_map_failed(page_table, *mem, &pt0, mem0, &pt1, mem1, &area1, from.0, vpn.0); }
                return vpn;
            }
            proof {
                self.lemma_map_step(page_table, *mem, &pt0, mem0, &pt1, mem1, &area1, from.0, vpn.0);
                self.lemma_zeroed_step(page_table, *mem, &pt0, mem0, &pt1, mem1, &area1, from.0, vpn.0);
            }
            vpn.step();
        }
        vpn
    }

    /// Maps every page of the area, which records no frame yet, in `page_table`; none of the
    /// pages may be mapped yet. Returns `false` when a frame cannot be had, which happens only
    /// with fewer than 3 frames per page free (2 per last-level table for an identical area); then
    /// the pages mapped so far are unmapped again and their frames given back, so that only the
    /// intermediate tables made on the way remain.
    pub fn map(&mut self, page_table: &mut PageTable, mem: &mut Memory) -> (r: bool)
        requires
            old(page_table).wf(*old(mem)),
            old(mem).wf(),
            old(self).range_ok(),
            old(self).frames_upto(old(self).start()),
            forall|v: u64| old(self).has_page(v) ==> !old(page_table).view_in(old(mem).phys).contains_key(#[trigger] vpn_key(v)),
        ensures
            final(self).start() == old(self).start(),
            final(self).end() == old(self).end(),
            final(self).kind() == old(self).kind(),
            final(self).perm() == old(self).perm(),
            r ==> final(self).mapped_so_far(final(page_table), *final(mem), old(page_table), *old(mem), old(self).start(), final(self).end()),
            r ==> final(mem).allocator.free_count() >= old(mem).allocator.free_count() - 3 * (old(self).end() - old(self).start()),
            r ==> final(self).zeroed_between(final(mem).phys, old(self).start(), old(self).end()),
            !r ==> old(mem).allocator.free_count() < 3 * (old(self).end() - old(self).start()),
            !r && old(self).kind() == MapType::Identical ==> final(mem).allocator.free_count() == 0,
            !r && old(self).kind() == MapType::Identical ==> old(mem).allocator.free_count() < 2 * tables_needed(old(self).start(), old(self).end()),
            r && old(self).kind() == MapType::Identical ==> final(mem).allocator.free_count()
                >= old(mem).allocator.free_count() - 2 * tables_needed(old(self).start(), old(self).end()),
            !r ==> final(self).frames_upto(final(self).start()),
            !r ==> grown_only(old(page_table), *old(mem), final(page_table), *final(mem)),
            !r ==> final(page_table).view_in(final(mem).phys) == old(page_table).view_in(old(mem).phys),
    {
        let start = self.vpn_range.get_start();
        let end = self.vpn_range.get_end();
        let ghost pt0 = *page_table;
        let ghost mem0 = *mem;
        proof {
            lemma_same_outside_refl(&mem.phys, page_table.frame_set() + unallocated(*mem));
            page_table.lemma_frames_allocated(*mem);
            assert(self.data_ppns() =~= Set::<int>::empty()) by {
                if self.kind() == MapType::Framed {
                    assert forall|p: int| !self.data_ppns().contains(p) by {
                        if self.data_ppns().contains(p) {
                            let w = choose|w: u64| #[trigger] self.frames().contains_key(w) && self.frames()[w].ppn.0 == p;
                        }
                    }
                }
            }
        }
        let reached = self.map_range(page_table, mem, start, end);
        if reached.0 == end.0 {
            return true;
        }
        let ghost pt1 = *page_table;
        let ghost mem1 = *mem;
        let ghost area1 = *self;
        proof {
            self.lemma_mapped_upto(page_table, *mem, &pt0, mem0, start.0 as int, reached.0 as int);
        }
        self.unmap_range(page_table, mem, start, reached, Ghost(reached.0 as int));
        proof {
            self.lemma_rolled_back(page_table, *mem, &area1, &pt1, mem1, &pt0, mem0, start.0 as int, reached.0 as int);
        }
        false
    }
}

impl MapArea {
    /// The frames of the pages `[from, upto)` of a framed area hold only zero bytes.
    pub open spec fn zeroed_between(&self, phys: PhysMem, from: int, upto: int) -> bool {
        self.kind() == MapType::Framed ==> forall|v: u64, off: int| from <= v < upto && 0 <= off < PAGE_SIZE
            ==> #[trigger] phys.byte(self.frames()[v].ppn.0 as int, off) == 0
    }

    /// Mapping page `v` on a fresh frame keeps the frames of the pages mapped before, from
    /// `from` on, zero, and adds a zero one.
    proof fn lemma_zeroed_step(&self, pt: &PageTable, mem: Memory, pt0: &PageTable, mem0: Memory, pt1: &PageTable, mem1: Memory, area1: &MapArea, from: u64, v: u64)
        requires
            area1.mapped_so_far(pt1, mem1, pt0, mem0, from as int, v as int),
            area1.start() <= from <= v,
            one_mapped(*area1, *self, *pt1, *pt, mem1, mem, v, true),
            area1.zeroed_between(mem1.phys, from as int, v as int),
        ensures
            self.zeroed_between(mem.phys, from as int, v + 1),
    {
        if self.kind() == MapType::Framed {
            let f = self.frames()[v].ppn.0 as int;
            assert forall|w: u64, off: int| from <= w < v + 1 && 0 <= off < PAGE_SIZE
                implies #[trigger] mem.phys.byte(self.frames()[w].ppn.0 as int, off) == 0 by {
                if w != v {
                    let g = area1.frames()[w].ppn.0 as int;
                    assert(self.frames()[w] == area1.frames()[w]);
                    assert(mem1.allocated(g));
                    assert(mem1.phys.has_frame(g));
                    assert(!pt1.frame_set().contains(g));
                    assert(!pt.frame_set().contains(g));
                    assert(g != f);
                    assert(mem1.phys.byte(g, off) == 0);
                }
            }
        }
    }

    /// The frames recorded after one more page of a framed area got frame `f`.
    proof fn lemma_data_ppns_insert(&self, before: &MapArea, v: u64, f: int)
        requires
            self.frames() == before.frames().insert(v, self.frames()[v]),
            !before.frames().contains_key(v),
            self.frames()[v].ppn.0 == f,
        ensures
            self.data_ppns() == before.data_ppns().insert(f),
    {
        assert(self.frames().contains_key(v));
        assert forall|p: int| #[trigger] self.data_ppns().contains(p) implies before.data_ppns().insert(f).contains(p) by {
            let w = choose|w: u64| #[trigger] self.frames().contains_key(w) && self.frames()[w].ppn.0 == p;
            if w != v {
                assert(before.frames().contains_key(w) && before.frames()[w].ppn.0 == p);
                assert(before.data_ppns().contains(p));
            }
        }
        assert forall|p: int| #[trigger] before.data_ppns().insert(f).contains(p) implies self.data_ppns().contains(p) by {
            if p == f {
                assert(self.frames().contains_key(v) && self.frames()[v].ppn.0 == p);
            } else {
                let w = choose|w: u64| #[trigger] before.frames().contains_key(w) && before.frames()[w].ppn.0 == p;
                if w == v {
                    assert(self.frames().contains_key(v));
                    assert(self.frames()[v].ppn.0 == f);
                    assert(self.frames().contains_key(w) && self.frames()[w].ppn.0 == f);
                } else {
                    assert(self.frames().contains_key(w) && self.frames()[w].ppn.0 == p);
                }
            }
        }
        assert(self.data_ppns() =~= before.data_ppns().insert(f));
    }

    /// One more page mapped keeps the facts of `mapped_so_far`.
    proof fn lemma_map_step(&self, pt: &PageTable, mem: Memory, pt0: &PageTable, mem0: Memory, pt1: &PageTable, mem1: Memory, area1: &MapArea, from: u64, v: u64)
        requires
            area1.mapped_so_far(pt1, mem1, pt0, mem0, from as int, v as int),
            from <= v,
            one_mapped(*area1, *self, *pt1, *pt, mem1, mem, v, true),
            area1.start() <= v,
            v - area1.start() < 0x800_0000,
            !pt1.view_in(mem1.phys).contains_key(vpn_key(v)),
        ensures
            self.mapped_so_far(pt, mem, pt0, mem0, from as int, v + 1),
    {
        let view0 = pt0.view_in(mem0.phys);
        let view1 = pt1.view_in(mem1.phys);
        let view = pt.view_in(mem.phys);
        if self.kind() == MapType::Framed {
            let f = self.frames()[v].ppn.0 as int;
            self.lemma_data_ppns_insert(area1, v, f);
            assert forall|w: u64| #[trigger] self.frames().contains_key(w) <==> self.start() <= w < v + 1 by {
                assert(area1.frames().contains_key(w) <==> area1.start() <= w < v);
            }
            assert forall|w: u64| self.start() <= w < v + 1 implies {
                &&& mem.allocated(#[trigger] self.frames()[w].ppn.0 as int)
                &&& mem.phys.has_frame(self.frames()[w].ppn.0 as int)
                &&& !pt.frame_set().contains(self.frames()[w].ppn.0 as int)
            } by {
                if w != v {
                    let g = area1.frames()[w].ppn.0 as int;
                    assert(mem1.allocated(g));
                    assert(mem1.phys.has_frame(g));
                    assert(!pt1.frame_set().contains(g));
                }
            }
            assert forall|a: u64, b: u64|
                self.start() <= a < v + 1 && self.start() <= b < v + 1 && a != b implies #[trigger] self.frames()[a].ppn
                != #[trigger] self.frames()[b].ppn by {
                if a != v && b != v {
                    assert(area1.frames()[a].ppn != area1.frames()[b].ppn);
                } else if a == v {
                    assert(mem1.allocated(area1.frames()[b].ppn.0 as int));
                } else {
                    assert(mem1.allocated(area1.frames()[a].ppn.0 as int));
                }
            }
            assert forall|w: u64| from <= w < v + 1 implies !mem0.allocated(#[trigger] self.frames()[w].ppn.0 as int) by {
                if w != v {
                    assert(!mem0.allocated(area1.frames()[w].ppn.0 as int));
                } else {
                    assert(mem1.allocated(f) == (mem0.allocated(f) || pt1.frame_set().contains(f) || area1.data_ppns().contains(f)));
                }
            }
            assert forall|q: int| #[trigger] mem.allocated(q) == (mem0.allocated(q) || pt.frame_set().contains(q) || self.data_ppns().contains(q)) by {
                assert(mem1.allocated(q) == (mem0.allocated(q) || pt1.frame_set().contains(q) || area1.data_ppns().contains(q)));
            }
            assert(unallocated(mem0).contains(f));
            lemma_same_outside_trans(&mem0.phys, &mem1.phys, &mem.phys, pt1.frame_set() + unallocated(mem0), pt.frame_set().insert(f), pt.frame_set() + unallocated(mem0));
        } else {
            assert(self.data_ppns() =~= area1.data_ppns());
            assert forall|q: int| #[trigger] mem.allocated(q) == (mem0.allocated(q) || pt.frame_set().contains(q) || self.data_ppns().contains(q)) by {
                assert(mem1.allocated(q) == (mem0.allocated(q) || pt1.frame_set().contains(q) || area1.data_ppns().contains(q)));
            }
            assert(unallocated(mem1).subset_of(unallocated(mem0))) by {
                assert forall|q: int| #[trigger] unallocated(mem1).contains(q) implies unallocated(mem0).contains(q) by {
                    assert(mem1.allocated(q) == (mem0.allocated(q) || pt1.frame_set().contains(q) || area1.data_ppns().contains(q)));
                }
            }
            lemma_same_outside_trans(&mem0.phys, &mem1.phys, &mem.phys, pt1.frame_set() + unallocated(mem0), pt.frame_set() + unallocated(mem1), pt.frame_set() + unallocated(mem0));
        }
        assert forall|q: int| #[trigger] pt.frame_set().contains(q) && !pt0.frame_set().contains(q) implies !mem0.allocated(q) by {
            if pt1.frame_set().contains(q) {
            } else {
                assert(!mem1.allocated(q));
            }
        }
        assert forall|k: u64| #[trigger] view0.contains_key(k) implies view.contains_key(k) && view[k] == view0[k] by {
            assert(view1.contains_key(k));
        }
        assert forall|w: u64| self.start() <= w < v + 1 implies #[trigger] view.contains_key(vpn_key(w)) && view[vpn_key(w)]
            == self.entry_for(w) by {
            if w != v {
                lemma_key_injective(w, v);
                assert(view1.contains_key(vpn_key(w)));
                assert(self.target(w) == area1.target(w));
            }
        }
        assert forall|k: u64| #[trigger] view.contains_key(k) implies view0.contains_key(k)
            || exists|w: u64| self.start() <= w < v + 1 && vpn_key(w) == k by {
            if k != vpn_key(v) {
                assert(view1.contains_key(k));
            }
        }
    }

    /// A failed mapping of one page keeps the facts of `mapped_so_far` for the pages before it.
    proof fn lemma_map_failed(&self, pt: &PageTable, mem: Memory, pt0: &PageTable, mem0: Memory, pt1: &PageTable, mem1: Memory, area1: &MapArea, from: u64, v: u64)
        requires
            area1.mapped_so_far(pt1, mem1, pt0, mem0, from as int, v as int),
            from <= v,
            one_mapped(*area1, *self, *pt1, *pt, mem1, mem, v, false),
        ensures
            self.mapped_so_far(pt, mem, pt0, mem0, from as int, v as int),
    {
        assert(self.data_ppns() =~= area1.data_ppns());
        assert forall|q: int| #[trigger] pt.frame_set().contains(q) && !pt0.frame_set().contains(q) implies !mem0.allocated(q) by {
            if !pt1.frame_set().contains(q) {
                assert(!mem1.allocated(q));
            }
        }
        if self.kind() == MapType::Framed {
            assert forall|w: u64| self.start() <= w < v implies {
                &&& mem.allocated(#[trigger] self.frames()[w].ppn.0 as int)
                &&& mem.phys.has_frame(self.frames()[w].ppn.0 as int)
                &&& !pt.frame_set().contains(self.frames()[w].ppn.0 as int)
            } by {
                let g = area1.frames()[w].ppn.0 as int;
                assert(mem1.allocated(g));
                assert(mem1.phys.has_frame(g));
                assert(!pt1.frame_set().contains(g));
            }
        }
        assert forall|q: int| #[trigger] mem.allocated(q) == (mem0.allocated(q) || pt.frame_set().contains(q) || self.data_ppns().contains(q)) by {
            assert(mem1.allocated(q) == (mem0.allocated(q) || pt1.frame_set().contains(q) || area1.data_ppns().contains(q)));
        }
        assert(unallocated(mem1).subset_of(unallocated(mem0))) by {
            assert forall|q: int| #[trigger] unallocated(mem1).contains(q) implies unallocated(mem0).contains(q) by {
                assert(mem1.allocated(q) == (mem0.allocated(q) || pt1.frame_set().contains(q) || area1.data_ppns().contains(q)));
            }
        }
        lemma_same_outside_trans(&mem0.phys, &mem1.phys, &mem.phys, pt1.frame_set() + unallocated(mem0), pt.frame_set() + unallocated(mem1), pt.frame_set() + unallocated(mem0));
        let view = pt.view_in(mem.phys);
        assert forall|w: u64| self.start() <= w < v implies #[trigger] view.contains_key(vpn_key(w)) && view[vpn_key(w)]
            == self.entry_for(w) by {
            assert(pt1.view_in(mem1.phys).contains_key(vpn_key(w)));
            assert(self.frames() == area1.frames());
            assert(self.target(w) == area1.target(w));
        }
    }

    /// The facts of `mapped_so_far` for the pages `[start, upto)` make them mapped up to `upto`.
    proof fn lemma_mapped_upto(&self, pt: &PageTable, mem: Memory, pt0: &PageTable, mem0: Memory, from: int, upto: int)
        requires
            self.mapped_so_far(pt, mem, pt0, mem0, from, upto),
            0 <= self.start() <= from <= upto <= u64::MAX,
            upto - self.start() <= 0x800_0000,
        ensures
            self.mapped_upto(pt, mem, upto),
    {
    }

    /// Unmapping again the pages `[s, u)` that a failed `map` had mapped leaves no frame recorded,
    /// the mappings of `pt0`, and only the intermediate tables made on the way.
    proof fn lemma_rolled_back(&self, pt: &PageTable, mem: Memory, area1: &MapArea, pt1: &PageTable, mem1: Memory, pt0: &PageTable, mem0: Memory, s: int, u: int)
        requires
            s == area1.start(),
            s <= u,
            area1.mapped_so_far(pt1, mem1, pt0, mem0, s, u),
            self.unmapped_so_far(pt, mem, area1, pt1, mem1, s, u),
            forall|v: u64| s <= v < u ==> !pt0.view_in(mem0.phys).contains_key(#[trigger] vpn_key(v)),
        ensures
            self.frames_upto(self.start()),
            grown_only(pt0, mem0, pt, mem),
            pt.view_in(mem.phys) == pt0.view_in(mem0.phys),
    {
        let view0 = pt0.view_in(mem0.phys);
        let view1 = pt1.view_in(mem1.phys);
        let view = pt.view_in(mem.phys);
        if self.kind() == MapType::Framed {
            assert forall|v: u64| #[trigger] self.frames().contains_key(v) <==> self.start() <= v < self.start() by {
                assert(area1.frames().contains_key(v) <==> area1.start() <= v < u);
            }
        } else {
            assert(self.frames().dom() =~= Set::<u64>::empty()) by {
                assert forall|v: u64| !self.frames().contains_key(v) by {
                    assert(!area1.frames().contains_key(v));
                }
            }
        }
        assert forall|k: u64| #[trigger] view.contains_key(k) <==> view0.contains_key(k) by {
            if view0.contains_key(k) {
                assert(view1.contains_key(k));
                if key_in(k, s, u) {
                    let w = choose|w: u64| s <= w < u && #[trigger] vpn_key(w) == k;
                    assert(!view0.contains_key(vpn_key(w)));
                }
            }
            if view.contains_key(k) {
                assert(view1.contains_key(k) && !key_in(k, s, u));
                if !view0.contains_key(k) {
                    let w = choose|w: u64| area1.start() <= w < u && vpn_key(w) == k;
                    assert(key_in(k, s, u));
                }
            }
        }
        assert forall|k: u64| #[trigger] view.contains_key(k) implies view[k] == view0[k] by {
            assert(view1.contains_key(k));
            assert(view0.contains_key(k));
        }
        assert(view =~= view0);
        assert forall|q: int| #[trigger] mem.allocated(q) == (mem0.allocated(q) || pt.frame_set().contains(q)) by {
            assert(mem1.allocated(q) == (mem0.allocated(q) || pt1.frame_set().contains(q) || area1.data_ppns().contains(q)));
            if area1.kind() == MapType::Framed {
                if exists|v: u64| s <= v < u && area1.frames()[v].ppn.0 == q {
                    let v = choose|v: u64| s <= v < u && area1.frames()[v].ppn.0 == q;
                    assert(!mem0.allocated(area1.frames()[v].ppn.0 as int));
                    assert(!pt1.frame_set().contains(area1.frames()[v].ppn.0 as int));
                }
                if area1.data_ppns().contains(q) {
                    let v = choose|v: u64| #[trigger] area1.frames().contains_key(v) && area1.frames()[v].ppn.0 == q;
                    assert(s <= v < u && area1.frames()[v].ppn.0 == q);
                }
            } else {
                if area1.data_ppns().contains(q) {
                    let v = choose|v: u64| #[trigger] area1.frames().contains_key(v) && area1.frames()[v].ppn.0 == q;
                    assert(area1.frames().dom().contains(v));
                }
            }
        }
        assert(area1.data_ppns().subset_of(unallocated(mem0))) by {
            assert forall|q: int| #[trigger] area1.data_ppns().contains(q) implies unallocated(mem0).contains(q) by {
                let v = choose|v: u64| #[trigger] area1.frames().contains_key(v) && area1.frames()[v].ppn.0 == q;
                if area1.kind() == MapType::Framed {
                    assert(s <= v < u);
                    assert(!mem0.allocated(area1.frames()[v].ppn.0 as int));
                } else {
                    assert(area1.frames().dom().contains(v));
                }
            }
        }
        lemma_same_outside_trans(&mem0.phys, &mem1.phys, &mem.phys, pt1.frame_set() + unallocated(mem0), pt.frame_set(), pt.frame_set() + unallocated(mem0));
    }
}

/// `pt` and `mem` differ from `pt0` and `mem0` at most by intermediate tables made from frames
/// that were free, and by the contents of frames that were free.
pub open spec fn grown_only(pt0: &PageTable, mem0: Memory, pt: &PageTable, mem: Memory) -> bool {
    &&& pt.wf(mem)
    &&& mem.wf()
    &&& mem.allocator.end() == mem0.allocator.end()
    &&& pt.root() == pt0.root()
    &&& pt0.frame_set().subset_of(pt.frame_set())
    &&& forall|q: int| #[trigger] pt.frame_set().contains(q) && !pt0.frame_set().contains(q) ==> !mem0.allocated(q)
    &&& forall|q: int| #[trigger] mem.allocated(q) == (mem0.allocated(q) || pt.frame_set().contains(q))
    &&& mem0.phys.same_outside(&mem.phys, pt.frame_set() + unallocated(mem0))
}

/// Page `v` lies in `[from, upto)` and has low 27 bits `k`.
pub open spec fn key_in(k: u64, from: int, upto: int) -> bool {
    exists|v: u64| from <= v < upto && #[trigger] vpn_key(v) == k
}

impl MapArea {
    /// The pages `[start, upto)` of the area, at most 2^27 of them, are mapped in `pt`, with
    /// their frames recorded and owned, and no other page records a frame.
    pub open spec fn mapped_upto(&self, pt: &PageTable, mem: Memory, upto: int) -> bool {
        &&& 0 <= self.start() <= upto
        &&& upto - self.start() <= 0x800_0000
        &&& upto <= u64::MAX
        &&& self.frames_upto(upto)
        &&& self.mapped_between(pt.view_in(mem.phys), self.start(), upto)
        &&& self.frames_owned_between(mem, pt.frame_set(), self.start(), upto)
    }

    /// The area is fully mapped in `pt`: its frames are recorded, owned and mapped.
    pub open spec fn area_ok(&self, pt: &PageTable, mem: Memory) -> bool {
        self.mapped_upto(pt, mem, self.end())
    }

    /// The facts that unmapping the pages `[from, upto)` of the area `area0`, fully mapped in
    /// `pt0`, establishes.
    pub open spec fn unmapped_so_far(&self, pt: &PageTable, mem: Memory, area0: &MapArea, pt0: &PageTable, mem0: Memory, from: int, upto: int) -> bool {
        &&& pt.wf(mem)
        &&& mem.wf()
        &&& mem.allocator.end() == mem0.allocator.end()
        &&& pt.root() == pt0.root()
        &&& pt.frame_set() == pt0.frame_set()
        &&& self.start() == area0.start() && self.end() == area0.end()
        &&& self.kind() == area0.kind() && self.perm() == area0.perm()
        &&& forall|v: u64| #[trigger] self.frames().contains_key(v) <==> (area0.frames().contains_key(v) && !(from <= v < upto))
        &&& forall|v: u64| #[trigger] self.frames().contains_key(v) ==> self.frames()[v] == area0.frames()[v]
        &&& self.kind() == MapType::Framed ==> forall|q: int| #[trigger] mem.allocated(q) == (mem0.allocated(q) && !(exists|v: u64| from <= v < upto && area0.frames()[v].ppn.0 == q))
        &&& self.kind() == MapType::Identical ==> forall|q: int| #[trigger] mem.allocated(q) == mem0.allocated(q)
        &&& mem0.phys.same_outside(&mem.phys, pt.frame_set())
        &&& forall|k: u64| #[trigger] pt.view_in(mem.phys).contains_key(k) <==> (pt0.view_in(mem0.phys).contains_key(k) && !key_in(k, from, upto))
        &&& forall|k: u64| #[trigger] pt.view_in(mem.phys).contains_key(k) ==> pt.view_in(mem.phys)[k] == pt0.view_in(mem0.phys)[k]
    }

    /// Unmaps the pages `[from, to)` of the area, whose pages up to `upto` are mapped, giving
    /// back their frames.
    fn unmap_range(&mut self, page_table: &mut PageTable, mem: &mut Memory, from: VirtPageNum, to: VirtPageNum, upto: Ghost<int>)
        requires
            old(page_table).wf(*old(mem)),
            old(mem).wf(),
            old(self).mapped_upto(old(page_table), *old(mem), upto@),
            old(self).start() <= from.0 <= to.0 <= upto@,
        ensures
            final(self).unmapped_so_far(final(page_table), *final(mem), old(self), old(page_table), *old(mem), from.0 as int, to.0 as int),
            old(self).kind() == MapType::Identical ==> final(mem).allocator == old(mem).allocator,
    {
        let ghost pt0 = *page_table;
        let ghost mem0 = *mem;
        let ghost area0 = *self;
        let mut vpn = from;
        proof {
            lemma_same_outside_refl(&mem.phys, page_table.frame_set());
            assert forall|k: u64| #[trigger] page_table.view_in(mem.phys).contains_key(k) <==> (pt0.view_in(mem0.phys).contains_key(k) && !key_in(k, from.0 as int, from.0 as int)) by {}
            if self.kind() == MapType::Framed {
                assert forall|q: int| #[trigger] mem.allocated(q) == (mem0.allocated(q) && !(exists|v: u64| from.0 <= v < from.0 && area0.frames()[v].ppn.0 == q)) by {}
            }
        }
        while vpn.0 < to.0
            invariant
                pt0 == *old(page_table),
                mem0 == *old(mem),
                area0 == *old(self),
                area0.mapped_upto(&pt0, mem0, upto@),
                area0.start() <= from.0 <= vpn.0 <= to.0 <= upto@,
                self.unmapped_so_far(page_table, *mem, &area0, &pt0, mem0, from.0 as int, vpn.0 as int),
                area0.kind() == MapType::Identical ==> mem.allocator == mem0.allocator,
            decreases to.0 - vpn.0,
        {
            let ghost pt1 = *page_table;
            let ghost mem1 = *mem;
            let ghost area1 = *self;
            proof {
                let k = vpn_key(vpn.0);
                assert(pt0.view_in(mem0.phys).contains_key(k));
                if key_in(k, from.0 as int, vpn.0 as int) {
                    let w = choose|w: u64| from.0 <= w < vpn.0 && #[trigger] vpn_key(w) == k;
                    lemma_key_injective(w, vpn.0);
                }
                if self.kind() == MapType::Framed {
                    let f = area0.frames()[vpn.0].ppn.0 as int;
                    assert(mem0.allocated(f));
                    if exists|v: u64| from.0 <= v < vpn.0 && area0.frames()[v].ppn.0 == f {
                        let v = choose|v: u64| from.0 <= v < vpn.0 && area0.frames()[v].ppn.0 == f;
                        assert(area0.frames()[v].ppn != area0.frames()[vpn.0].ppn);
                    }
                    assert(self.frames().contains_key(vpn.0));
                } else {
                    assert(!area0.frames().contains_key(vpn.0));
                }
            }
            self.unmap_one(page_table, mem, vpn);
            proof {
                self.lemma_unmap_step(page_table, *mem, &area0, &pt0, mem0, &area1, &pt1, mem1, from.0, vpn.0, upto@);
            }
            vpn.step();
        }
    }

    /// One more page unmapped keeps the facts of `unmapped_so_far`.
    proof fn lemma_unmap_step(&self, pt: &PageTable, mem: Memory, area0: &MapArea, pt0: &PageTable, mem0: Memory, area1: &MapArea, pt1: &PageTable, mem1: Memory, from: u64, v: u64, upto: int)
        requires
            area0.mapped_upto(pt0, mem0, upto),
            area0.start() <= from <= v < upto,
            area1.unmapped_so_far(pt1, mem1, area0, pt0, mem0, from as int, v as int),
            // what unmap_one gives
            pt.wf(mem),
            mem.wf(),
            self.start() == area1.start() && self.end() == area1.end(),
            self.kind() == area1.kind() && self.perm() == area1.perm(),
            self.frames() == area1.frames().remove(v),
            pt.frame_set() == pt1.frame_set(),
            pt.root() == pt1.root(),
            mem.allocator.end() == mem1.allocator.end(),
            mem1.phys.same_outside(&mem.phys, pt1.frame_set()),
            area1.kind() == MapType::Framed && area1.frames().contains_key(v) ==> forall|q: int|
                #[trigger] mem.allocated(q) == (mem1.allocated(q) && q != area1.frames()[v].ppn.0),
            !(area1.kind() == MapType::Framed && area1.frames().contains_key(v)) ==> forall|q: int|
                #[trigger] mem.allocated(q) == mem1.allocated(q),
            pt.view_in(mem.phys) == pt1.view_in(mem1.phys).remove(vpn_key(v)),
        ensures
            self.unmapped_so_far(pt, mem, area0, pt0, mem0, from as int, v + 1),
    {
        lemma_same_outside_trans(&mem0.phys, &mem1.phys, &mem.phys, pt.frame_set(), pt.frame_set(), pt.frame_set());
        if self.kind() == MapType::Framed {
            assert(area1.frames().contains_key(v));
            assert forall|q: int| #[trigger] mem.allocated(q) == (mem0.allocated(q) && !(exists|w: u64| from <= w < v + 1 && area0.frames()[w].ppn.0 == q)) by {
                assert(mem1.allocated(q) == (mem0.allocated(q) && !(exists|w: u64| from <= w < v && area0.frames()[w].ppn.0 == q)));
                if exists|w: u64| from <= w < v + 1 && area0.frames()[w].ppn.0 == q {
                    let w = choose|w: u64| from <= w < v + 1 && area0.frames()[w].ppn.0 == q;
                    if w < v {
                    } else {
                        assert(area1.frames()[v] == area0.frames()[v]);
                    }
                }
                if q == area1.frames()[v].ppn.0 {
                    assert(area1.frames()[v] == area0.frames()[v]);
                    assert(from <= v < v + 1 && area0.frames()[v].ppn.0 == q);
                }
            }
        }
        assert forall|k: u64| #[trigger] pt.view_in(mem.phys).contains_key(k) <==> (pt0.view_in(mem0.phys).contains_key(k) && !key_in(k, from as int, v + 1)) by {
            if key_in(k, from as int, v + 1) && !key_in(k, from as int, v as int) {
                let w = choose|w: u64| from <= w < v + 1 && #[trigger] vpn_key(w) == k;
                assert(w == v);
            }
            if k == vpn_key(v) {
                assert(from <= v < v + 1 && vpn_key(v) == k);
            }
            if key_in(k, from as int, v as int) {
                let w = choose|w: u64| from <= w < v && #[trigger] vpn_key(w) == k;
                assert(from <= w < v + 1 && vpn_key(w) == k);
            }
        }
    }
}

impl MapArea {
    /// Unmaps every page of the area, which is fully mapped, giving back its frames.
    pub fn unmap(&mut self, page_table: &mut PageTable, mem: &mut Memory)
        requires
            old(page_table).wf(*old(mem)),
            old(mem).wf(),
            old(self).area_ok(old(page_table), *old(mem)),
        ensures
            final(self).unmapped_so_far(final(page_table), *final(mem), old(self), old(page_table), *old(mem), old(self).start(), old(self).end()),
    {
        let start = self.vpn_range.get_start();
        let end = self.vpn_range.get_end();
        self.unmap_range(page_table, mem, start, end, Ghost(end.0 as int));
    }

    /// Every recorded frame and every table frame is handed out, when the area is fully mapped.
    proof fn lemma_owned_allocated(&self, pt: &PageTable, mem: Memory)
        requires
            pt.wf(mem),
            mem.wf(),
            self.area_ok(pt, mem),
        ensures
            forall|q: int| #[trigger] mem.allocated(q) == (mem.allocated(q) || pt.frame_set().contains(q) || self.data_ppns().contains(q)),
            self.mapped_so_far(pt, mem, pt, mem, self.end(), self.end()),
    {
        pt.lemma_frames_allocated(mem);
        assert forall|q: int| #[trigger] mem.allocated(q) == (mem.allocated(q) || pt.frame_set().contains(q) || self.data_ppns().contains(q)) by {
            if self.data_ppns().contains(q) {
                let w = choose|w: u64| #[trigger] self.frames().contains_key(w) && self.frames()[w].ppn.0 == q;
                if self.kind() == MapType::Framed {
                    assert(self.start() <= w < self.end());
                    assert(mem.allocated(self.frames()[w].ppn.0 as int));
                } else {
                    assert(self.frames().dom().contains(w));
                }
            }
        }
        lemma_same_outside_refl(&mem.phys, pt.frame_set() + unallocated(mem));
    }

    /// Unmaps the pages from `new_end` on, giving back their frames, and ends the area at `new_end`.
    pub fn shrink_to(&mut self, page_table: &mut PageTable, mem: &mut Memory, new_end: VirtPageNum)
        requires
            old(page_table).wf(*old(mem)),
            old(mem).wf(),
            old(self).area_ok(old(page_table), *old(mem)),
            old(self).start() <= new_end.0 <= old(self).end(),
        ensures
            final(self).start() == old(self).start(),
            final(self).end() == new_end.0,
            final(self).kind() == old(self).kind(),
            final(self).perm() == old(self).perm(),
            final(self).area_ok(final(page_table), *final(mem)),
            final(page_table).wf(*final(mem)),
            final(mem).wf(),
            final(page_table).frame_set() == old(page_table).frame_set(),
            final(page_table).root() == old(page_table).root(),
            final(mem).allocator.end() == old(mem).allocator.end(),
            old(mem).phys.same_outside(&final(mem).phys, old(page_table).frame_set()),
            forall|k: u64| #[trigger] final(page_table).view_in(final(mem).phys).contains_key(k) <==> (old(page_table).view_in(old(mem).phys).contains_key(k) && !key_in(k, new_end.0 as int, old(self).end())),
            forall|k: u64| #[trigger] final(page_table).view_in(final(mem).phys).contains_key(k) ==> final(page_table).view_in(final(mem).phys)[k] == old(page_table).view_in(old(mem).phys)[k],
            forall|v: u64| #[trigger] final(self).frames().contains_key(v) ==> final(self).frames()[v] == old(self).frames()[v],
            old(self).kind() == MapType::Framed ==> forall|q: int| #[trigger] final(mem).allocated(q) == (old(mem).allocated(q) && !(exists|v: u64| new_end.0 <= v < old(self).end() && old(self).frames()[v].ppn.0 == q)),
            old(self).kind() == MapType::Identical ==> forall|q: int| #[trigger] final(mem).allocated(q) == old(mem).allocated(q),
    {
        let ghost area0 = *self;
        let ghost pt0 = *page_table;
        let ghost mem0 = *mem;
        let end = self.vpn_range.get_end();
        self.unmap_range(page_table, mem, new_end, end, Ghost(end.0 as int));
        let ghost area1 = *self;
        self.vpn_range = VPNRange::new(self.vpn_range.get_start(), new_end);
        proof {
            assert(self.frames() == area1.frames());
            assert forall|v: u64| #[trigger] self.frames().contains_key(v) <==> (area0.frames().contains_key(v) && !(new_end.0 <= v < area0.end())) by {
                assert(area1.frames().contains_key(v) <==> (area0.frames().contains_key(v) && !(new_end.0 <= v < area0.end())));
            }
            let view = page_table.view_in(mem.phys);
            assert forall|v: u64| self.start() <= v < self.end() implies #[trigger] view.contains_key(vpn_key(v)) && view[vpn_key(v)]
                == self.entry_for(v) by {
                if key_in(vpn_key(v), new_end.0 as int, area0.end()) {
                    let w = choose|w: u64| new_end.0 <= w < area0.end() && #[trigger] vpn_key(w) == vpn_key(v);
                    lemma_key_injective(v, w);
                }
                assert(pt0.view_in(mem0.phys).contains_key(vpn_key(v)));
                assert(pt0.view_in(mem0.phys)[vpn_key(v)] == area0.entry_for(v));
                assert(view.contains_key(vpn_key(v)));
                assert(view[vpn_key(v)] == pt0.view_in(mem0.phys)[vpn_key(v)]);
                if self.kind() == MapType::Framed {
                    assert(self.frames().contains_key(v));
                    assert(self.frames()[v] == area0.frames()[v]);
                }
                assert(self.target(v) == area0.target(v));
            }
            if self.kind() == MapType::Framed {
                assert forall|v: u64| self.start() <= v < self.end() implies {
                    &&& mem.allocated(#[trigger] self.frames()[v].ppn.0 as int)
                    &&& mem.phys.has_frame(self.frames()[v].ppn.0 as int)
                    &&& !page_table.frame_set().contains(self.frames()[v].ppn.0 as int)
                } by {
                    assert(self.frames().contains_key(v));
                    let f = area0.frames()[v].ppn.0 as int;
                    if exists|w: u64| new_end.0 <= w < area0.end() && area0.frames()[w].ppn.0 == f {
                        let w = choose|w: u64| new_end.0 <= w < area0.end() && area0.frames()[w].ppn.0 == f;
                        assert(area0.frames()[w].ppn != area0.frames()[v].ppn);
                    }
                }
                assert forall|a: u64, b: u64|
                    self.start() <= a < self.end() && self.start() <= b < self.end() && a != b implies #[trigger] self.frames()[a].ppn
                    != #[trigger] self.frames()[b].ppn by {
                    assert(self.frames().contains_key(a) && self.frames().contains_key(b));
                    assert(area0.frames()[a].ppn != area0.frames()[b].ppn);
                }
            } else {
                assert(self.frames().dom() =~= Set::<u64>::empty()) by {
                    assert forall|v: u64| !self.frames().contains_key(v) by {
                        assert(!area0.frames().contains_key(v));
                    }
                }
            }
        }
    }

    /// Maps the pages `[end, new_end)`, none of which may be mapped, and ends the area at
    /// `new_end`. Returns `false` when a frame cannot be had, which happens only with fewer than 3
    /// frames per new page free; then the pages mapped so far are unmapped again and their frames
    /// given back, and the area keeps its end.
    pub fn append_to(&mut self, page_table: &mut PageTable, mem: &mut Memory, new_end: VirtPageNum) -> (r: bool)
        requires
            old(page_table).wf(*old(mem)),
            old(mem).wf(),
            old(self).area_ok(old(page_table), *old(mem)),
            old(self).end() <= new_end.0,
            new_end.0 - old(self).start() <= 0x800_0000,
            forall|v: u64| old(self).end() <= v < new_end.0 ==> !old(page_table).view_in(old(mem).phys).contains_key(#[trigger] vpn_key(v)),
        ensures
            final(self).start() == old(self).start(),
            final(self).kind() == old(self).kind(),
            final(self).perm() == old(self).perm(),
            final(self).area_ok(final(page_table), *final(mem)),
            forall|v: u64| #[trigger] old(self).frames().contains_key(v) ==> final(self).frames().contains_key(v) && final(self).frames()[v] == old(self).frames()[v],
            r ==> final(self).end() == new_end.0,
            r ==> final(self).mapped_so_far(final(page_table), *final(mem), old(page_table), *old(mem), old(self).end(), new_end.0 as int),
            r ==> final(self).zeroed_between(final(mem).phys, old(self).end(), new_end.0 as int),
            !r ==> final(self).end() == old(self).end(),
            !r ==> final(self).frames() == old(self).frames(),
            !r ==> old(mem).allocator.free_count() < 3 * (new_end.0 - old(self).end()),
            !r ==> grown_only(old(page_table), *old(mem), final(page_table), *final(mem)),
            !r ==> final(page_table).view_in(final(mem).phys) == old(page_table).view_in(old(mem).phys),
    {
        let ghost pt0 = *page_table;
        let ghost mem0 = *mem;
        let ghost area0 = *self;
        proof {
            self.lemma_owned_allocated(page_table, *mem);
        }
        let end = self.vpn_range.get_end();
        let reached = self.map_range(page_table, mem, end, new_end);
        if reached.0 == new_end.0 {
            let ghost a1 = *self;
            self.vpn_range = VPNRange::new(self.vpn_range.get_start(), new_end);
            proof {
                assert(self.frames() == a1.frames());
                assert(a1.frames_upto(new_end.0 as int));
                assert(self.start() == a1.start());
                assert(self.kind() == a1.kind() && self.perm() == a1.perm());
                assert(self.data_ppns() =~= a1.data_ppns());
                assert forall|v: u64| #[trigger] self.entry_for(v) == a1.entry_for(v) by {
                    assert(self.target(v) == a1.target(v));
                }
                assert(self.mapped_between(page_table.view_in(mem.phys), self.start(), new_end.0 as int));
                assert(self.frames_owned_between(*mem, page_table.frame_set(), self.start(), new_end.0 as int));
                assert(self.mapped_so_far(page_table, *mem, &pt0, mem0, area0.end(), new_end.0 as int));
            }
            return true;
        }
        let ghost pt1 = *page_table;
        let ghost mem1 = *mem;
        let ghost area1 = *self;
        proof {
            self.lemma_mapped_upto(page_table, *mem, &pt0, mem0, end.0 as int, reached.0 as int);
        }
        self.unmap_range(page_table, mem, end, reached, Ghost(reached.0 as int));
        proof {
            self.lemma_append_rolled_back(page_table, *mem, &area0, &area1, &pt1, mem1, &pt0, mem0, end.0 as int, reached.0 as int);
        }
        false
    }

    /// Unmapping again the pages `[e, u)` that a failed `append_to` had added leaves the area as
    /// it was, the mappings of `pt0`, and only the intermediate tables made on the way.
    proof fn lemma_append_rolled_back(&self, pt: &PageTable, mem: Memory, area0: &MapArea, area1: &MapArea, pt1: &PageTable, mem1: Memory, pt0: &PageTable, mem0: Memory, e: int, u: int)
        requires
            area0.area_ok(pt0, mem0),
            e == area0.end(),
            e <= u,
            u - area0.start() <= 0x800_0000,
            area1.start() == area0.start() && area1.end() == area0.end(),
            area1.kind() == area0.kind() && area1.perm() == area0.perm(),
            forall|v: u64| #[trigger] area0.frames().contains_key(v) ==> area1.frames().contains_key(v) && area1.frames()[v] == area0.frames()[v],
            area1.mapped_so_far(pt1, mem1, pt0, mem0, e, u),
            self.unmapped_so_far(pt, mem, area1, pt1, mem1, e, u),
            forall|v: u64| e <= v < u ==> !pt0.view_in(mem0.phys).contains_key(#[trigger] vpn_key(v)),
        ensures
            self.area_ok(pt, mem),
            self.frames() == area0.frames(),
            grown_only(pt0, mem0, pt, mem),
            pt.view_in(mem.phys) == pt0.view_in(mem0.phys),
    {
        let view0 = pt0.view_in(mem0.phys);
        let view1 = pt1.view_in(mem1.phys);
        let view = pt.view_in(mem.phys);
        let s = area0.start();
        assert forall|v: u64| #[trigger] self.frames().contains_key(v) <==> area0.frames().contains_key(v) by {
            assert(self.frames().contains_key(v) <==> (area1.frames().contains_key(v) && !(e <= v < u)));
            if area0.kind() == MapType::Framed {
                assert(area1.frames().contains_key(v) <==> s <= v < u);
                assert(area0.frames().contains_key(v) <==> s <= v < e);
            } else {
                assert(!area0.frames().dom().contains(v));
                assert(!area1.frames().dom().contains(v));
            }
        }
        assert forall|v: u64| #[trigger] self.frames().contains_key(v) implies self.frames()[v] == area0.frames()[v] by {
            assert(area0.frames().contains_key(v));
        }
        assert(self.frames() =~= area0.frames());
        assert forall|k: u64| #[trigger] view.contains_key(k) <==> view0.contains_key(k) by {
            if view0.contains_key(k) {
                assert(view1.contains_key(k));
                if key_in(k, e, u) {
                    let w = choose|w: u64| e <= w < u && #[trigger] vpn_key(w) == k;
                    assert(!view0.contains_key(vpn_key(w)));
                }
            }
            if view.contains_key(k) {
                assert(view1.contains_key(k) && !key_in(k, e, u));
                if !view0.contains_key(k) {
                    let w = choose|w: u64| area1.start() <= w < u && vpn_key(w) == k;
                    if w < e {
                        assert(view0.contains_key(vpn_key(w)));
                    } else {
                        assert(key_in(k, e, u));
                    }
                }
            }
        }
        assert forall|k: u64| #[trigger] view.contains_key(k) implies view[k] == view0[k] by {
            assert(view1.contains_key(k));
            assert(view0.contains_key(k));
        }
        assert(view =~= view0);
        assert forall|q: int| #[trigger] mem.allocated(q) == (mem0.allocated(q) || pt.frame_set().contains(q)) by {
            assert(mem1.allocated(q) == (mem0.allocated(q) || pt1.frame_set().contains(q) || area1.data_ppns().contains(q)));
            if area1.kind() == MapType::Framed {
                if exists|v: u64| e <= v < u && area1.frames()[v].ppn.0 == q {
                    let v = choose|v: u64| e <= v < u && area1.frames()[v].ppn.0 == q;
                    assert(!mem0.allocated(area1.frames()[v].ppn.0 as int));
                    assert(!pt1.frame_set().contains(area1.frames()[v].ppn.0 as int));
                }
                if area1.data_ppns().contains(q) {
                    let v = choose|v: u64| #[trigger] area1.frames().contains_key(v) && area1.frames()[v].ppn.0 == q;
                    if v < e {
                        assert(area0.frames().contains_key(v));
                        assert(mem0.allocated(area0.frames()[v].ppn.0 as int));
                    } else {
                        assert(e <= v < u && area1.frames()[v].ppn.0 == q);
                    }
                }
            } else {
                if area1.data_ppns().contains(q) {
                    let v = choose|v: u64| #[trigger] area1.frames().contains_key(v) && area1.frames()[v].ppn.0 == q;
                    assert(area1.frames().dom().contains(v));
                }
            }
        }
        lemma_same_outside_trans(&mem0.phys, &mem1.phys, &mem.phys, pt1.frame_set() + unallocated(mem0), pt.frame_set(), pt.frame_set() + unallocated(mem0));
        assert forall|v: u64| self.start() <= v < self.end() implies #[trigger] view.contains_key(vpn_key(v)) && view[vpn_key(v)]
            == self.entry_for(v) by {
            assert(view0.contains_key(vpn_key(v)));
            if self.kind() == MapType::Framed {
                assert(area0.frames().contains_key(v));
            }
            assert(self.target(v) == area0.target(v));
        }
        if self.kind() == MapType::Framed {
            assert forall|v: u64| self.start() <= v < self.end() implies {
                &&& mem.allocated(#[trigger] self.frames()[v].ppn.0 as int)
                &&& mem.phys.has_frame(self.frames()[v].ppn.0 as int)
                &&& !pt.frame_set().contains(self.frames()[v].ppn.0 as int)
            } by {
                let g = area0.frames()[v].ppn.0 as int;
                assert(mem0.allocated(g));
                assert(!pt0.frame_set().contains(g));
            }
        }
    }
}

/// Entry of a mapped framed page holds its frame.
pub proof fn lemma_area_entry_ppn(target: u64, perm: u8)
    requires
        target < 0x1000_0000_0000,
    ensures
        area_entry(target, perm).ppn_spec() == target,
{
    crate::page_table::lemma_pte_bits(target, perm | 1);
}

impl MapArea {
    /// Number of pages that `copy_data` fills for `len` bytes: at least one.
    pub open spec fn pages_for(len: int) -> int {
        if len <= PAGE_SIZE { 1 } else { (len + PAGE_SIZE - 1) / PAGE_SIZE as int }
    }

    /// Copies `data` into the frames of the framed area, page after page from its first page;
    /// bytes of the pages beyond `data` keep their values.
    pub fn copy_data(&mut self, page_table: &PageTable, mem: &mut Memory, data: &[u8])
        requires
            old(self).kind() == MapType::Framed,
            page_table.wf(*old(mem)),
            old(mem).wf(),
            old(self).area_ok(page_table, *old(mem)),
            Self::pages_for(data@.len() as int) <= old(self).end() - old(self).start(),
        ensures
            *final(self) == *old(self),
            final(mem).allocator == old(mem).allocator,
            final(mem).wf(),
            page_table.wf(*final(mem)),
            page_table.view_in(final(mem).phys) == page_table.view_in(old(mem).phys),
            old(mem).phys.same_outside(&final(mem).phys, old(self).data_ppns()),
            forall|pj: int, off: int|
                0 <= pj && 0 <= off < PAGE_SIZE && pj * PAGE_SIZE + off < data@.len() ==> #[trigger] final(mem).phys.byte(
                    old(self).frames()[(old(self).start() + pj) as u64].ppn.0 as int,
                    off,
                ) == data@[pj * PAGE_SIZE + off],
            forall|pj: int, off: int|
                0 <= pj < old(self).end() - old(self).start() && 0 <= off < PAGE_SIZE && pj * PAGE_SIZE + off >= data@.len() ==> #[trigger] final(mem).phys.byte(
                    old(self).frames()[(old(self).start() + pj) as u64].ppn.0 as int,
                    off,
                ) == old(mem).phys.byte(old(self).frames()[(old(self).start() + pj) as u64].ppn.0 as int, off),
    {
        let ghost mem0 = *mem;
        let len = data.len();
        let mut start: usize = 0;
        let mut current_vpn = self.vpn_range.get_start();
        let ghost s0 = self.start();
        proof {
            lemma_same_outside_refl(&mem.phys, self.data_ppns());
            assert(self.data_ppns().disjoint(page_table.frame_set())) by {
                assert forall|p: int| self.data_ppns().contains(p) implies !page_table.frame_set().contains(p) by {
                    let w = choose|w: u64| #[trigger] self.frames().contains_key(w) && self.frames()[w].ppn.0 == p;
                    assert(self.start() <= w < self.end());
                }
            }
        }
        loop
            invariant_except_break
                forall|pj: int, off: int|
                    0 <= pj < self.end() - s0 && 0 <= off < PAGE_SIZE && pj * PAGE_SIZE + off >= start ==> #[trigger] mem.phys.byte(
                        self.frames()[(s0 + pj) as u64].ppn.0 as int,
                        off,
                    ) == mem0.phys.byte(self.frames()[(s0 + pj) as u64].ppn.0 as int, off),
            invariant
                mem0 == *old(mem),
                *self == *old(self),
                s0 == self.start(),
                self.kind() == MapType::Framed,
                self.area_ok(page_table, mem0),
                page_table.wf(mem0),
                mem0.wf(),
                mem.allocator == mem0.allocator,
                mem.phys.wf(),
                mem0.phys.same_outside(&mem.phys, self.data_ppns()),
                self.data_ppns().disjoint(page_table.frame_set()),
                len == data@.len(),
                start % 4096 == 0,
                start < len || start == 0,
                current_vpn.0 == s0 + start / 4096,
                Self::pages_for(len as int) <= self.end() - self.start(),
                forall|pj: int, off: int|
                    0 <= pj && 0 <= off < PAGE_SIZE && pj * PAGE_SIZE + off < start && pj * PAGE_SIZE + off < len ==> #[trigger] mem.phys.byte(
                        self.frames()[(s0 + pj) as u64].ppn.0 as int,
                        off,
                    ) == data@[pj * PAGE_SIZE + off],
            ensures
                mem.allocator == mem0.allocator,
                mem.phys.wf(),
                mem0.phys.same_outside(&mem.phys, self.data_ppns()),
                forall|pj: int, off: int|
                    0 <= pj && 0 <= off < PAGE_SIZE && pj * PAGE_SIZE + off < len ==> #[trigger] mem.phys.byte(
                        self.frames()[(s0 + pj) as u64].ppn.0 as int,
                        off,
                    ) == data@[pj * PAGE_SIZE + off],
                forall|pj: int, off: int|
                    0 <= pj < self.end() - s0 && 0 <= off < PAGE_SIZE && pj * PAGE_SIZE + off >= len ==> #[trigger] mem.phys.byte(
                        self.frames()[(s0 + pj) as u64].ppn.0 as int,
                        off,
                    ) == mem0.phys.byte(self.frames()[(s0 + pj) as u64].ppn.0 as int, off),
            decreases len - start,
        {
            let chunk_end = if len - start > 4096 { start + 4096 } else { len };
            let src = &data[start..chunk_end];
            proof {
                Memory::lemma_wf_bytes_changed(mem0, *mem);
                page_table.lemma_frames_allocated(mem0);
                page_table.lemma_frame_local(mem0, *mem, self.data_ppns());
                assert(start / 4096 < Self::pages_for(len as int)) by (nonlinear_arith)
                    requires
                        start % 4096 == 0,
                        start < len || start == 0,
                        Self::pages_for(len as int) == if len <= 4096 { 1 } else { (len + 4095) / 4096 },
                ;
            }
            let ghost page = (current_vpn.0) as u64;
            proof {
                crate::page_table::lemma_walk_key(mem.phys, page_table.root(), current_vpn.0);
                assert(self.has_page(page));
            }
            let pte = page_table.translate(&mem.phys, current_vpn).unwrap();
            let ppn = pte.ppn();
            proof {
                assert(self.frames().contains_key(page));
                lemma_area_entry_ppn(self.frames()[page].ppn.0, self.perm());
                assert(ppn == self.frames()[page].ppn);
            }
            let ghost before_chunk = *mem;
            let mut i: usize = 0;
            while i < chunk_end - start
                invariant
                    mem0 == *old(mem),
                    *self == *old(self),
                    self.kind() == MapType::Framed,
                    self.area_ok(page_table, mem0),
                    mem.allocator == mem0.allocator,
                    mem.phys.wf(),
                    mem.phys.first() == mem0.phys.first(),
                    mem.phys.bytes().len() == mem0.phys.bytes().len(),
                    mem0.phys.has_frame(ppn.0 as int),
                    before_chunk.phys.same_outside(&mem.phys, set![ppn.0 as int]),
                    src@ == data@.subrange(start as int, chunk_end as int),
                    chunk_end - start <= 4096,
                    start <= chunk_end <= len,
                    len == data@.len(),
                    0 <= i <= chunk_end - start,
                    forall|off: int| 0 <= off < i ==> #[trigger] mem.phys.byte(ppn.0 as int, off) == data@[start + off],
                    forall|off: int| i <= off < 4096 ==> #[trigger] mem.phys.byte(ppn.0 as int, off) == before_chunk.phys.byte(ppn.0 as int, off),
                decreases chunk_end - start - i,
            {
                let ghost before = *mem;
                mem.phys.write_byte(ppn, i as u64, src[i]);
                proof {
                    assert forall|q: int, off: int|
                        #![trigger mem.phys.byte(q, off)]
                        before.phys.has_frame(q) && 0 <= off < PAGE_SIZE && (q != ppn.0 || off != i) implies mem.phys.byte(q, off) == before.phys.byte(q, off) by {
                        before.phys.lemma_pos_in_range(q, off);
                        before.phys.lemma_pos_in_range(ppn.0 as int, i as int);
                        if q != ppn.0 {
                            crate::phys_mem::lemma_pos_distinct(before.phys.first(), q, off, ppn.0 as int);
                        }
                    }
                    before.phys.lemma_pos_in_range(ppn.0 as int, i as int);
                    assert(mem.phys.byte(ppn.0 as int, i as int) == data@[start + i]);
                }
                i = i + 1;
            }
            proof {
                let f = ppn.0 as int;
                assert(self.data_ppns().contains(f)) by {
                    assert(self.frames().contains_key(page) && self.frames()[page].ppn.0 == f);
                }
                assert(set![f].subset_of(self.data_ppns()));
                lemma_same_outside_trans(&mem0.phys, &before_chunk.phys, &mem.phys, self.data_ppns(), set![f], self.data_ppns());
                let pj0 = (start / 4096) as int;
                assert(pj0 * 4096 == start) by (nonlinear_arith)
                    requires start % 4096 == 0, pj0 == start / 4096;
                assert(page == s0 + pj0);
                assert forall|pj: int, off: int|
                    0 <= pj && 0 <= off < PAGE_SIZE && pj * PAGE_SIZE + off < chunk_end && pj * PAGE_SIZE + off < len implies #[trigger] mem.phys.byte(
                        self.frames()[(s0 + pj) as u64].ppn.0 as int,
                        off,
                    ) == data@[pj * PAGE_SIZE + off] by {
                    if pj < pj0 {
                        assert(pj * 4096 + off < start) by (nonlinear_arith)
                            requires pj < pj0, pj0 * 4096 == start, 0 <= off < 4096;
                        let g = self.frames()[(s0 + pj) as u64].ppn;
                        assert(self.start() <= ((s0 + pj) as u64) && ((s0 + pj) as u64) < self.end());
                        assert((s0 + pj) as u64 != page);
                        assert(g != self.frames()[page].ppn);
                        assert(before_chunk.phys.byte(g.0 as int, off) == data@[pj * PAGE_SIZE + off]);
                        assert(self.start() <= ((s0 + pj) as u64) && ((s0 + pj) as u64) < self.end());
                        assert(mem0.phys.has_frame(g.0 as int));
                    } else {
                        assert(pj == pj0) by (nonlinear_arith)
                            requires pj >= pj0, pj0 * 4096 == start, 0 <= off < 4096, pj * 4096 + off < chunk_end, chunk_end <= start + 4096;
                        assert(off < chunk_end - start);
                    }
                }
                assert forall|pj: int, off: int|
                    0 <= pj < self.end() - s0 && 0 <= off < PAGE_SIZE && pj * PAGE_SIZE + off >= chunk_end implies #[trigger] mem.phys.byte(
                        self.frames()[(s0 + pj) as u64].ppn.0 as int,
                        off,
                    ) == mem0.phys.byte(self.frames()[(s0 + pj) as u64].ppn.0 as int, off) by {
                    let w = (s0 + pj) as u64;
                    let g = self.frames()[w].ppn;
                    assert(self.start() <= w && w < self.end());
                    assert(mem0.phys.has_frame(g.0 as int));
                    assert(before_chunk.phys.byte(g.0 as int, off) == mem0.phys.byte(g.0 as int, off));
                    if w == page {
                        assert(pj == pj0);
                        assert(off >= chunk_end - start);
                    } else {
                        assert(g != self.frames()[page].ppn);
                    }
                }
            }
            if len - start <= 4096 {
                break;
            }
            start = start + 4096;
            current_vpn.step();
        }
        proof {
            Memory::lemma_wf_bytes_changed(mem0, *mem);
            page_table.lemma_frames_allocated(mem0);
            page_table.lemma_frame_local(mem0, *mem, self.data_ppns());
        }
    }
}

/// The facts about an area that a `MemorySet` exposes: first page, end, type, permission.
pub open spec fn area_summary(a: MapArea) -> (int, int, MapType, u8) {
    (a.start(), a.end(), a.kind(), a.perm())
}

/// Every area of `areas` is fully mapped in `pt`, no two areas share a page number (low 27 bits)
/// or a frame.
pub open spec fn areas_ok(areas: Seq<MapArea>, pt: &PageTable, mem: Memory) -> bool {
    &&& forall|i: int| 0 <= i < areas.len() ==> #[trigger] areas[i].area_ok(pt, mem)
    &&& forall|i: int, j: int, v: u64, w: u64|
        0 <= i < areas.len() && 0 <= j < areas.len() && i != j && #[trigger] areas[i].has_page(v)
            && #[trigger] areas[j].has_page(w) ==> vpn_key(v) != vpn_key(w)
    &&& forall|i: int, j: int, v: u64, w: u64|
        0 <= i < areas.len() && 0 <= j < areas.len() && i != j && areas[i].kind() == MapType::Framed
            && areas[j].kind() == MapType::Framed && areas[i].has_page(v) && areas[j].has_page(w)
            ==> #[trigger] areas[i].frames()[v].ppn != #[trigger] areas[j].frames()[w].ppn
}

/// Areas stay fully mapped when the table only gains mappings and fresh frames, and memory only
/// hands out more frames.
pub proof fn lemma_areas_grow(areas: Seq<MapArea>, pt0: &PageTable, mem0: Memory, pt1: &PageTable, mem1: Memory)
    requires
        areas_ok(areas, pt0, mem0),
        view_extends(pt0.view_in(mem0.phys), pt1.view_in(mem1.phys)),
        forall|q: int| #[trigger] pt1.frame_set().contains(q) && !pt0.frame_set().contains(q) ==> !mem0.allocated(q),
        forall|q: int| #[trigger] mem0.allocated(q) ==> mem1.allocated(q),
        mem1.phys.first() == mem0.phys.first(),
        mem1.phys.bytes().len() == mem0.phys.bytes().len(),
    ensures
        areas_ok(areas, pt1, mem1),
{
    assert forall|i: int| 0 <= i < areas.len() implies #[trigger] areas[i].area_ok(pt1, mem1) by {
        let a = areas[i];
        assert(a.area_ok(pt0, mem0));
        assert forall|v: u64| a.start() <= v < a.end() implies #[trigger] pt1.view_in(mem1.phys).contains_key(vpn_key(v))
            && pt1.view_in(mem1.phys)[vpn_key(v)] == a.entry_for(v) by {
            assert(pt0.view_in(mem0.phys).contains_key(vpn_key(v)));
        }
        if a.kind() == MapType::Framed {
            assert forall|v: u64| a.start() <= v < a.end() implies {
                &&& mem1.allocated(#[trigger] a.frames()[v].ppn.0 as int)
                &&& mem1.phys.has_frame(a.frames()[v].ppn.0 as int)
                &&& !pt1.frame_set().contains(a.frames()[v].ppn.0 as int)
            } by {
                assert(mem0.allocated(a.frames()[v].ppn.0 as int));
            }
        }
    }
}


/// Copying data into an area's frames keeps what mapping it established.
proof fn lemma_mapped_after_copy(a: &MapArea, pt: &PageTable, pt0: &PageTable, mem0: Memory, mem1: Memory, mem2: Memory)
    requires
        a.mapped_so_far(pt, mem1, pt0, mem0, a.start(), a.end()),
        mem2.allocator == mem1.allocator,
        mem2.wf(),
        pt.wf(mem2),
        pt.view_in(mem2.phys) == pt.view_in(mem1.phys),
        mem1.phys.same_outside(&mem2.phys, a.data_ppns()),
    ensures
        a.mapped_so_far(pt, mem2, pt0, mem0, a.start(), a.end()),
{
    assert(a.data_ppns().subset_of(unallocated(mem0))) by {
        assert forall|q: int| #[trigger] a.data_ppns().contains(q) implies unallocated(mem0).contains(q) by {
            let v = choose|v: u64| #[trigger] a.frames().contains_key(v) && a.frames()[v].ppn.0 == q;
            if a.kind() == MapType::Framed {
                assert(a.start() <= v < a.end());
                assert(!mem0.allocated(a.frames()[v].ppn.0 as int));
            } else {
                assert(a.frames().dom().contains(v));
            }
        }
    }
    lemma_same_outside_trans(&mem0.phys, &mem1.phys, &mem2.phys, pt.frame_set() + unallocated(mem0), a.data_ppns(), pt.frame_set() + unallocated(mem0));
    assert forall|q: int| #[trigger] mem2.allocated(q) == (mem0.allocated(q) || pt.frame_set().contains(q) || a.data_ppns().contains(q)) by {
        assert(mem2.allocated(q) == mem1.allocated(q));
    }
}

/// Adding a freshly mapped area to areas that were fully mapped before keeps them all apart.
proof fn lemma_push_areas_ok(areas0: Seq<MapArea>, a: &MapArea, pt: &PageTable, mem: Memory, pt0: &PageTable, mem0: Memory)
    requires
        areas_ok(areas0, pt0, mem0),
        areas_ok(areas0, pt, mem),
        a.range_ok(),
        a.mapped_so_far(pt, mem, pt0, mem0, a.start(), a.end()),
        forall|v: u64| a.has_page(v) ==> !pt0.view_in(mem0.phys).contains_key(#[trigger] vpn_key(v)),
    ensures
        areas_ok(areas0.push(*a), pt, mem),
{
    let areas = areas0.push(*a);
    let n = areas0.len() as int;
    assert forall|i: int| 0 <= i < areas.len() implies #[trigger] areas[i].area_ok(pt, mem) by {
        if i < n {
            assert(areas[i] == areas0[i]);
        }
    }
    assert forall|i: int, j: int, v: u64, w: u64|
        0 <= i < areas.len() && 0 <= j < areas.len() && i != j && #[trigger] areas[i].has_page(v)
            && #[trigger] areas[j].has_page(w) implies vpn_key(v) != vpn_key(w) by {
        if i < n && j < n {
            assert(areas0[i].has_page(v) && areas0[j].has_page(w));
        } else if i == n {
            assert(areas0[j].area_ok(pt0, mem0));
            assert(pt0.view_in(mem0.phys).contains_key(vpn_key(w)));
        } else {
            assert(areas0[i].area_ok(pt0, mem0));
            assert(pt0.view_in(mem0.phys).contains_key(vpn_key(v)));
        }
    }
    assert forall|i: int, j: int, v: u64, w: u64|
        0 <= i < areas.len() && 0 <= j < areas.len() && i != j && areas[i].kind() == MapType::Framed
            && areas[j].kind() == MapType::Framed && areas[i].has_page(v) && areas[j].has_page(w)
            implies #[trigger] areas[i].frames()[v].ppn != #[trigger] areas[j].frames()[w].ppn by {
        if i < n && j < n {
            assert(areas[i] == areas0[i] && areas[j] == areas0[j]);
        } else if i == n {
            assert(areas0[j].area_ok(pt0, mem0));
            assert(mem0.allocated(areas0[j].frames()[w].ppn.0 as int));
            assert(!mem0.allocated(a.frames()[v].ppn.0 as int));
        } else {
            assert(areas0[i].area_ok(pt0, mem0));
            assert(mem0.allocated(areas0[i].frames()[v].ppn.0 as int));
            assert(!mem0.allocated(a.frames()[w].ppn.0 as int));
        }
    }
}

/// An address space: a page table and the areas mapped in it.
pub struct MemorySet {
    page_table: PageTable,
    areas: Vec<MapArea>,
}

impl MemorySet {
    /// The page table.
    pub closed spec fn table(&self) -> PageTable {
        self.page_table
    }

    /// The areas, in the order they were added.
    pub closed spec fn area_seq(&self) -> Seq<MapArea> {
        self.areas@
    }

    /// First page, end, type and permission of each area.
    pub open spec fn areas_view(&self) -> Seq<(int, int, MapType, u8)> {
        self.area_seq().map_values(|a: MapArea| area_summary(a))
    }

    /// The mapping of the page table.
    pub open spec fn view_in(&self, phys: PhysMem) -> Map<u64, PageTableEntry> {
        self.table().view_in(phys)
    }

    /// The table is well formed, every area is fully mapped, and areas share no page and no frame.
    pub open spec fn wf(&self, mem: Memory) -> bool {
        &&& self.table().wf(mem)
        &&& areas_ok(self.area_seq(), &self.table(), mem)
    }

    /// An address space with an empty page table and no area; `None` when no frame is free.
    pub fn new_bare(mem: &mut Memory) -> (r: Option<MemorySet>)
        requires
            old(mem).wf(),
        ensures
            final(mem).wf(),
            r is None <==> old(mem).allocator.free_count() == 0,
            r is Some ==> final(mem).allocator.free_count() == old(mem).allocator.free_count() - 1,
            r matches Some(ms) ==> {
                &&& ms.wf(*final(mem))
                &&& ms.area_seq().len() == 0
                &&& ms.view_in(final(mem).phys) == Map::<u64, PageTableEntry>::empty()
                &&& !old(mem).allocated(ms.table().root())
                &&& ms.table().frame_set() == set![ms.table().root()]
                &&& forall|q: int| #[trigger] final(mem).allocated(q) == (old(mem).allocated(q) || q == ms.table().root())
                &&& old(mem).phys.same_outside(&final(mem).phys, set![ms.table().root()])
            },
            r is None ==> final(mem).phys == old(mem).phys && forall|q: int| #[trigger] final(mem).allocated(q) == old(mem).allocated(q),
            r is None ==> final(mem).allocator.free_count() == 0,
            final(mem).allocator.end() == old(mem).allocator.end(),
    {
        match PageTable::new(mem) {
            None => None,
            Some(page_table) => {
                let ms = MemorySet { page_table, areas: Vec::new() };
                Some(ms)
            },
        }
    }

    /// The frame that page `v` has in a framed area of the space, if one of them holds it.
    pub fn data_frame_of(&self, v: u64) -> (r: Option<PhysPageNum>)
        ensures
            r matches Some(p) ==> exists|i: int| 0 <= i < self.area_seq().len() && self.area_seq()[i].kind() == MapType::Framed
                && self.area_seq()[i].has_page(v) && #[trigger] self.area_seq()[i].frames()[v].ppn == p,
            r is None ==> forall|i: int| 0 <= i < self.area_seq().len() && self.area_seq()[i].kind() == MapType::Framed
                && self.area_seq()[i].has_page(v) ==> !(#[trigger] self.area_seq()[i].frames()).contains_key(v),
    {
        let mut i: usize = 0;
        while i < self.areas.len()
            invariant
                0 <= i <= self.area_seq().len(),
                self.area_seq() == self.areas@,
                forall|j: int| 0 <= j < i && self.area_seq()[j].kind() == MapType::Framed
                    && self.area_seq()[j].has_page(v) ==> !(#[trigger] self.area_seq()[j].frames()).contains_key(v),
            decreases self.area_seq().len() - i,
        {
            let a = &self.areas[i];
            if a.map_type == MapType::Framed && a.vpn_range.get_start().0 <= v && v < a.vpn_range.get_end().0 {
                match a.frame_at(v) {
                    Some(p) => {
                        proof {
                            assert(self.area_seq()[i as int].frames()[v].ppn == p);
                        }
                        return Some(p);
                    },
                    None => {},
                }
            }
            i = i + 1;
        }
        None
    }

    /// The value of `satp` that selects this address space.
    pub fn token(&self) -> (r: u64)
        ensures
            r == 0x8000_0000_0000_0000u64 | (self.table().root() as u64),
    {
        self.page_table.token()
    }

    /// The last-level entry for `vpn`, when the walk reaches one.
    pub fn translate(&self, phys: &PhysMem, vpn: VirtPageNum) -> (r: Option<PageTableEntry>)
        requires
            phys.wf(),
        ensures
            r == crate::page_table::translate_spec(*phys, self.table().root(), vpn.0),
    {
        self.page_table.translate(phys, vpn)
    }

    /// Maps the area `map_area`, which records no frame yet, and adds it; copies `data`, when
    /// given, into its first pages. None of its pages may be mapped. Returns `false`, without
    /// adding the area, when a frame cannot be had.
    fn push(&mut self, mem: &mut Memory, map_area: MapArea, data: Option<&[u8]>) -> (r: bool)
        requires
            old(self).wf(*old(mem)),
            old(mem).wf(),
            map_area.range_ok(),
            map_area.frames_upto(map_area.start()),
            forall|v: u64| map_area.has_page(v) ==> !old(self).view_in(old(mem).phys).contains_key(#[trigger] vpn_key(v)),
            data matches Some(d) ==> map_area.kind() == MapType::Framed && MapArea::pages_for(d@.len() as int) <= map_area.end() - map_area.start(),
        ensures
            final(self).wf(*final(mem)),
            final(mem).wf(),
            final(self).table().root() == old(self).table().root(),
            r ==> final(self).area_seq() == old(self).area_seq().push(final(self).area_seq().last()),
            r ==> area_summary(final(self).area_seq().last()) == area_summary(map_area),
            !r ==> final(self).area_seq() == old(self).area_seq(),
            !r ==> old(mem).allocator.free_count() < 3 * (map_area.end() - map_area.start()),
            !r && map_area.kind() == MapType::Identical ==> final(mem).allocator.free_count() == 0,
            !r && map_area.kind() == MapType::Identical ==> old(mem).allocator.free_count() < 2 * tables_needed(map_area.start(), map_area.end()),
            r && map_area.kind() == MapType::Identical ==> final(mem).allocator.free_count()
                >= old(mem).allocator.free_count() - 2 * tables_needed(map_area.start(), map_area.end()),
            final(mem).allocator.end() == old(mem).allocator.end(),
            r ==> final(mem).allocator.free_count() >= old(mem).allocator.free_count() - 3 * (map_area.end() - map_area.start()),
            r ==> map_area.kind() == MapType::Framed ==> forall|v: u64| map_area.has_page(v) ==> !old(mem).allocated(#[trigger] final(self).area_seq().last().frames()[v].ppn.0 as int),
            r && data is None ==> final(self).area_seq().last().zeroed_between(final(mem).phys, map_area.start(), map_area.end()),
            r && data is Some ==> forall|pj: int, off: int|
                0 <= pj < map_area.end() - map_area.start() && 0 <= off < PAGE_SIZE && pj * PAGE_SIZE + off >= data->0@.len() ==> #[trigger] final(mem).phys.byte(
                    final(self).area_seq().last().frames()[(map_area.start() + pj) as u64].ppn.0 as int,
                    off,
                ) == 0,
            old(mem).phys.same_outside(&final(mem).phys, final(self).table().frame_set() + unallocated(*old(mem))),
            old(self).table().frame_set().subset_of(final(self).table().frame_set()),
            forall|q: int| #[trigger] final(self).table().frame_set().contains(q) && !old(self).table().frame_set().contains(q) ==> !old(mem).allocated(q),
            !r ==> final(self).view_in(final(mem).phys) == old(self).view_in(old(mem).phys),
            !r ==> grown_only(&old(self).table(), *old(mem), &final(self).table(), *final(mem)),
            view_extends(old(self).view_in(old(mem).phys), final(self).view_in(final(mem).phys)),
            r ==> forall|k: u64| #[trigger] final(self).view_in(final(mem).phys).contains_key(k) ==> old(self).view_in(old(mem).phys).contains_key(k)
                || key_in(k, map_area.start(), map_area.end()),
            forall|q: int| #[trigger] old(mem).allocated(q) ==> final(mem).allocated(q),
            r && data is Some ==> forall|pj: int, off: int|
                0 <= pj && 0 <= off < PAGE_SIZE && pj * PAGE_SIZE + off < data->0@.len() ==> #[trigger] final(mem).phys.byte(
                    final(self).area_seq().last().frames()[(map_area.start() + pj) as u64].ppn.0 as int,
                    off,
                ) == data->0@[pj * PAGE_SIZE + off],
    {
        let ghost pt0 = self.page_table;
        let ghost mem0 = *mem;
        let mut map_area = map_area;
        let ok = map_area.map(&mut self.page_table, mem);
        if !ok {
            proof {
                lemma_areas_grow(self.areas@, &pt0, mem0, &self.page_table, *mem);
            }
            return false;
        }
        proof {
            let pt1 = self.page_table;
            assert forall|q: int| #[trigger] mem0.allocated(q) implies mem.allocated(q) by {}
            lemma_areas_grow(self.areas@, &pt0, mem0, &pt1, *mem);
        }
        let ghost mem1 = *mem;
        if let Some(d) = data {
            let ghost a1 = map_area;
            map_area.copy_data(&self.page_table, mem, d);
            proof {
                assert forall|pj: int, off: int|
                    0 <= pj < a1.end() - a1.start() && 0 <= off < PAGE_SIZE && pj * PAGE_SIZE + off >= d@.len() implies #[trigger] mem.phys.byte(
                        map_area.frames()[(a1.start() + pj) as u64].ppn.0 as int, off) == 0 by {
                    let v = (a1.start() + pj) as u64;
                    assert(a1.start() <= v < a1.end());
                    assert(mem1.phys.byte(a1.frames()[v].ppn.0 as int, off) == 0);
                }
                lemma_areas_grow(self.areas@, &self.page_table, mem1, &self.page_table, *mem);
                lemma_mapped_after_copy(&map_area, &self.page_table, &pt0, mem0, mem1, *mem);
            }
        }
        let ghost areas0 = self.areas@;
        self.areas.push(map_area);
        proof {
            lemma_push_areas_ok(areas0, &map_area, &self.page_table, *mem, &pt0, mem0);
            assert(self.areas@ == areas0.push(map_area));
            assert(self.areas@.last() == map_area);
        }
        true
    }
}

/// Unmapping area `k` keeps the other areas fully mapped and apart.
proof fn lemma_remove_areas_ok(areas0: Seq<MapArea>, k: int, pt0: &PageTable, mem0: Memory, pt1: &PageTable, mem1: Memory)
    requires
        0 <= k < areas0.len(),
        areas_ok(areas0, pt0, mem0),
        pt1.frame_set() == pt0.frame_set(),
        mem1.phys.first() == mem0.phys.first(),
        mem1.phys.bytes().len() == mem0.phys.bytes().len(),
        forall|kk: u64| #[trigger] pt0.view_in(mem0.phys).contains_key(kk) && !key_in(kk, areas0[k].start(), areas0[k].end())
            ==> pt1.view_in(mem1.phys).contains_key(kk) && pt1.view_in(mem1.phys)[kk] == pt0.view_in(mem0.phys)[kk],
        areas0[k].kind() == MapType::Framed ==> forall|q: int| #[trigger] mem1.allocated(q) == (mem0.allocated(q) && !(exists|v: u64| areas0[k].start() <= v < areas0[k].end() && areas0[k].frames()[v].ppn.0 == q)),
        areas0[k].kind() == MapType::Identical ==> forall|q: int| #[trigger] mem1.allocated(q) == mem0.allocated(q),
    ensures
        areas_ok(areas0.remove(k), pt1, mem1),
{
    let areas = areas0.remove(k);
    let ak = areas0[k];
    assert forall|i: int| 0 <= i < areas.len() implies #[trigger] areas[i].area_ok(pt1, mem1) by {
        let oi = if i < k { i } else { i + 1 };
        assert(areas[i] == areas0[oi]);
        let a = areas0[oi];
        assert(a.area_ok(pt0, mem0));
        assert forall|v: u64| a.start() <= v < a.end() implies #[trigger] pt1.view_in(mem1.phys).contains_key(vpn_key(v))
            && pt1.view_in(mem1.phys)[vpn_key(v)] == a.entry_for(v) by {
            assert(pt0.view_in(mem0.phys).contains_key(vpn_key(v)));
            assert(pt0.view_in(mem0.phys)[vpn_key(v)] == a.entry_for(v));
            if key_in(vpn_key(v), ak.start(), ak.end()) {
                let w = choose|w: u64| ak.start() <= w < ak.end() && #[trigger] vpn_key(w) == vpn_key(v);
                assert(areas0[oi].has_page(v) && areas0[k].has_page(w));
            }
            assert(!key_in(vpn_key(v), ak.start(), ak.end()));
            assert(pt1.view_in(mem1.phys).contains_key(vpn_key(v)));
            assert(pt1.view_in(mem1.phys)[vpn_key(v)] == pt0.view_in(mem0.phys)[vpn_key(v)]);
        }
        if a.kind() == MapType::Framed {
            assert forall|v: u64| a.start() <= v < a.end() implies {
                &&& mem1.allocated(#[trigger] a.frames()[v].ppn.0 as int)
                &&& mem1.phys.has_frame(a.frames()[v].ppn.0 as int)
                &&& !pt1.frame_set().contains(a.frames()[v].ppn.0 as int)
            } by {
                let f = a.frames()[v].ppn.0 as int;
                assert(mem0.allocated(f));
                if ak.kind() == MapType::Framed {
                    if exists|w: u64| ak.start() <= w < ak.end() && ak.frames()[w].ppn.0 == f {
                        let w = choose|w: u64| ak.start() <= w < ak.end() && ak.frames()[w].ppn.0 == f;
                        assert(areas0[oi].has_page(v) && areas0[k].has_page(w));
                        assert(areas0[oi].frames()[v].ppn != areas0[k].frames()[w].ppn);
                    }
                }
            }
        }
    }
    assert forall|i: int, j: int, v: u64, w: u64|
        0 <= i < areas.len() && 0 <= j < areas.len() && i != j && #[trigger] areas[i].has_page(v)
            && #[trigger] areas[j].has_page(w) implies vpn_key(v) != vpn_key(w) by {
        let oi = if i < k { i } else { i + 1 };
        let oj = if j < k { j } else { j + 1 };
        assert(areas[i] == areas0[oi] && areas[j] == areas0[oj]);
        assert(areas0[oi].has_page(v) && areas0[oj].has_page(w));
    }
    assert forall|i: int, j: int, v: u64, w: u64|
        0 <= i < areas.len() && 0 <= j < areas.len() && i != j && areas[i].kind() == MapType::Framed
            && areas[j].kind() == MapType::Framed && areas[i].has_page(v) && areas[j].has_page(w)
            implies #[trigger] areas[i].frames()[v].ppn != #[trigger] areas[j].frames()[w].ppn by {
        let oi = if i < k { i } else { i + 1 };
        let oj = if j < k { j } else { j + 1 };
        assert(areas[i] == areas0[oi] && areas[j] == areas0[oj]);
    }
}

/// Index of the first area of `areas` that starts at page `start` and, when `end` is given,
/// ends at page `end`.
pub open spec fn is_first_match(areas: Seq<(int, int, MapType, u8)>, i: int, start: int, end: Option<int>) -> bool {
    &&& 0 <= i < areas.len()
    &&& area_matches(areas[i], start, end)
    &&& forall|j: int| 0 <= j < i ==> !area_matches(#[trigger] areas[j], start, end)
}

/// Area `a` starts at `start` and, when `end` is given, ends at `end`.
pub open spec fn area_matches(a: (int, int, MapType, u8), start: int, end: Option<int>) -> bool {
    a.0 == start && match end {
        Some(e) => a.1 == e,
        None => true,
    }
}

/// The page number held by `e`, if any.
pub open spec fn opt_page(e: Option<VirtPageNum>) -> Option<int> {
    match e {
        Some(v) => Some(v.0 as int),
        None => None,
    }
}

/// Some area of `areas` starts at `start` and, when `end` is given, ends at `end`.
pub open spec fn has_match(areas: Seq<(int, int, MapType, u8)>, start: int, end: Option<int>) -> bool {
    exists|i: int| 0 <= i < areas.len() && area_matches(#[trigger] areas[i], start, end)
}

impl MemorySet {
    /// Index of the first area that starts at `start` and, when `end` is given, ends at `end`.
    fn find_area(&self, start: VirtPageNum, end: Option<VirtPageNum>) -> (r: Option<usize>)
        ensures
            match r {
                Some(i) => is_first_match(self.areas_view(), i as int, start.0 as int, opt_page(end)),
                None => !has_match(self.areas_view(), start.0 as int, opt_page(end)),
            },
    {
        let ghost e = opt_page(end);
        let mut i: usize = 0;
        while i < self.areas.len()
            invariant
                0 <= i <= self.areas@.len(),
                e == opt_page(end),
                forall|j: int| 0 <= j < i ==> !area_matches(#[trigger] self.areas_view()[j], start.0 as int, e),
            decreases self.areas@.len() - i,
        {
            let a = &self.areas[i];
            let hit = a.vpn_range.get_start().0 == start.0 && match end {
                Some(ev) => a.vpn_range.get_end().0 == ev.0,
                None => true,
            };
            if hit {
                return Some(i);
            }
            i = i + 1;
        }
        proof {
            assert forall|j: int| 0 <= j < self.areas_view().len() implies !area_matches(#[trigger] self.areas_view()[j], start.0 as int, e) by {}
        }
        None
    }

    /// Whether some area intersects the pages `[start, end)`.
    pub fn is_overlap(&self, start: VirtPageNum, end: VirtPageNum) -> (r: bool)
        ensures
            r == exists|i: int| 0 <= i < self.areas_view().len() && #[trigger] self.areas_view()[i].0 < end.0 && self.areas_view()[i].1 > start.0,
    {
        let mut i: usize = 0;
        while i < self.areas.len()
            invariant
                0 <= i <= self.areas@.len(),
                forall|j: int| 0 <= j < i ==> !(#[trigger] self.areas_view()[j].0 < end.0 && self.areas_view()[j].1 > start.0),
            decreases self.areas@.len() - i,
        {
            let a = &self.areas[i];
            if a.vpn_range.get_start().0 < end.0 && a.vpn_range.get_end().0 > start.0 {
                assert(self.areas_view()[i as int].0 < end.0);
                return true;
            }
            i = i + 1;
        }
        false
    }

    /// Unmaps and removes area `i`, giving back its frames.
    fn remove_area(&mut self, mem: &mut Memory, i: usize)
        requires
            old(self).wf(*old(mem)),
            old(mem).wf(),
            i < old(self).area_seq().len(),
        ensures
            final(self).wf(*final(mem)),
            final(mem).wf(),
            final(self).table().root() == old(self).table().root(),
            final(self).table().frame_set() == old(self).table().frame_set(),
            final(self).area_seq() == old(self).area_seq().remove(i as int),
            forall|k: u64| #[trigger] final(self).view_in(final(mem).phys).contains_key(k) <==> (old(self).view_in(old(mem).phys).contains_key(k) && !key_in(k, old(self).area_seq()[i as int].start(), old(self).area_seq()[i as int].end())),
            forall|k: u64| #[trigger] final(self).view_in(final(mem).phys).contains_key(k) ==> final(self).view_in(final(mem).phys)[k] == old(self).view_in(old(mem).phys)[k],
            old(self).area_seq()[i as int].kind() == MapType::Framed ==> forall|q: int| #[trigger] final(mem).allocated(q) == (old(mem).allocated(q) && !(exists|v: u64| old(self).area_seq()[i as int].has_page(v) && old(self).area_seq()[i as int].frames()[v].ppn.0 == q)),
            old(self).area_seq()[i as int].kind() == MapType::Identical ==> forall|q: int| #[trigger] final(mem).allocated(q) == old(mem).allocated(q),
            old(mem).phys.same_outside(&final(mem).phys, old(self).table().frame_set()),
            final(mem).allocator.end() == old(mem).allocator.end(),
    {
        let ghost areas0 = self.areas@;
        let ghost pt0 = self.page_table;
        let ghost mem0 = *mem;
        let mut area = self.areas.remove(i);
        proof {
            assert(areas0[i as int].area_ok(&pt0, mem0));
        }
        area.unmap(&mut self.page_table, mem);
        proof {
            lemma_remove_areas_ok(areas0, i as int, &pt0, mem0, &self.page_table, *mem);
            let a = areas0[i as int];
            if a.kind() == MapType::Framed {
                assert forall|q: int| #[trigger] mem.allocated(q) == (mem0.allocated(q) && !(exists|v: u64| a.has_page(v) && a.frames()[v].ppn.0 == q)) by {
                    assert(mem.allocated(q) == (mem0.allocated(q) && !(exists|v: u64| a.start() <= v < a.end() && a.frames()[v].ppn.0 == q)));
                    if exists|v: u64| a.has_page(v) && a.frames()[v].ppn.0 == q {
                        let v = choose|v: u64| a.has_page(v) && a.frames()[v].ppn.0 == q;
                        assert(a.start() <= v < a.end() && a.frames()[v].ppn.0 == q);
                    }
                    if exists|v: u64| a.start() <= v < a.end() && a.frames()[v].ppn.0 == q {
                        let v = choose|v: u64| a.start() <= v < a.end() && a.frames()[v].ppn.0 == q;
                        assert(a.has_page(v) && a.frames()[v].ppn.0 == q);
                    }
                }
            }
        }
    }

    /// Unmaps and removes the first area that starts at page `start_vpn`, if there is one.
    pub fn remove_area_with_start_vpn(&mut self, mem: &mut Memory, start_vpn: VirtPageNum)
        requires
            old(self).wf(*old(mem)),
            old(mem).wf(),
        ensures
            final(self).wf(*final(mem)),
            final(mem).wf(),
            !has_match(old(self).areas_view(), start_vpn.0 as int, None) ==> final(self).area_seq() == old(self).area_seq()
                && final(self).view_in(final(mem).phys) == old(self).view_in(old(mem).phys)
                && forall|q: int| #[trigger] final(mem).allocated(q) == old(mem).allocated(q),
            forall|i: int| #[trigger] is_first_match(old(self).areas_view(), i, start_vpn.0 as int, None) ==> {
                &&& final(self).area_seq() == old(self).area_seq().remove(i)
                &&& forall|k: u64| #[trigger] final(self).view_in(final(mem).phys).contains_key(k) <==> (old(self).view_in(old(mem).phys).contains_key(k) && !key_in(k, old(self).area_seq()[i].start(), old(self).area_seq()[i].end()))
                &&& forall|k: u64| #[trigger] final(self).view_in(final(mem).phys).contains_key(k) ==> final(self).view_in(final(mem).phys)[k] == old(self).view_in(old(mem).phys)[k]
            },
    {
        match self.find_area(start_vpn, None) {
            Some(i) => {
                self.remove_area(mem, i);
                proof { lemma_first_match_unique(old(self).areas_view(), i as int, start_vpn.0 as int, None); }
            },
            None => {},
        }
    }

    /// Unmaps and removes the area that spans exactly the pages `[start_vpn, end_vpn)`: 0 when
    /// there is one (the first, if several), -1 when there is none.
    pub fn munmap(&mut self, mem: &mut Memory, start_vpn: VirtPageNum, end_vpn: VirtPageNum) -> (r: i64)
        requires
            old(self).wf(*old(mem)),
            old(mem).wf(),
        ensures
            final(self).wf(*final(mem)),
            final(mem).wf(),
            r == 0 <==> has_match(old(self).areas_view(), start_vpn.0 as int, Some(end_vpn.0 as int)),
            r == 0 || r == -1,
            r == -1 ==> final(self).area_seq() == old(self).area_seq()
                && final(self).view_in(final(mem).phys) == old(self).view_in(old(mem).phys)
                && forall|q: int| #[trigger] final(mem).allocated(q) == old(mem).allocated(q),
            forall|i: int| #[trigger] is_first_match(old(self).areas_view(), i, start_vpn.0 as int, Some(end_vpn.0 as int)) ==> {
                &&& final(self).area_seq() == old(self).area_seq().remove(i)
                &&& forall|k: u64| #[trigger] final(self).view_in(final(mem).phys).contains_key(k) <==> (old(self).view_in(old(mem).phys).contains_key(k) && !key_in(k, start_vpn.0 as int, end_vpn.0 as int))
                &&& forall|k: u64| #[trigger] final(self).view_in(final(mem).phys).contains_key(k) ==> final(self).view_in(final(mem).phys)[k] == old(self).view_in(old(mem).phys)[k]
                &&& old(self).area_seq()[i].kind() == MapType::Framed ==> forall|q: int| #[trigger] final(mem).allocated(q)
                    == (old(mem).allocated(q) && !(exists|v: u64| old(self).area_seq()[i].has_page(v) && old(self).area_seq()[i].frames()[v].ppn.0 == q))
                &&& old(self).area_seq()[i].kind() == MapType::Identical ==> forall|q: int| #[trigger] final(mem).allocated(q) == old(mem).allocated(q)
            },
            old(mem).phys.same_outside(&final(mem).phys, old(self).table().frame_set()),
    {
        match self.find_area(start_vpn, Some(end_vpn)) {
            Some(i) => {
                self.remove_area(mem, i);
                proof { lemma_first_match_unique(old(self).areas_view(), i as int, start_vpn.0 as int, Some(end_vpn.0 as int)); }
                0
            },
            None => {
                proof { lemma_same_outside_refl(&mem.phys, self.table().frame_set()); }
                -1
            },
        }
    }
}

/// The first matching area is unique.
pub proof fn lemma_first_match_unique(areas: Seq<(int, int, MapType, u8)>, i: int, start: int, end: Option<int>)
    requires
        is_first_match(areas, i, start, end),
    ensures
        forall|j: int| #[trigger] is_first_match(areas, j, start, end) ==> j == i,
        has_match(areas, start, end),
{
    assert forall|j: int| #[trigger] is_first_match(areas, j, start, end) implies j == i by {
        if j < i {
            assert(!area_matches(areas[j], start, end));
        } else if j > i {
            assert(!area_matches(areas[i], start, end));
        }
    }
}

impl MapArea {
    /// Gives back every frame that the area records, without touching the page table.
    fn release_frames(&mut self, mem: &mut Memory)
        requires
            old(mem).wf(),
            old(self).range_ok(),
            old(self).frames_upto(old(self).end()),
            old(self).frames_owned_between(*old(mem), Set::<int>::empty(), old(self).start(), old(self).end()),
        ensures
            final(mem).wf(),
            final(mem).phys == old(mem).phys,
            final(mem).allocator.end() == old(mem).allocator.end(),
            final(mem).allocator.free_count() >= old(mem).allocator.free_count(),
            old(self).kind() == MapType::Framed ==> forall|q: int| #[trigger] final(mem).allocated(q) == (old(mem).allocated(q) && !(exists|v: u64| old(self).start() <= v < old(self).end() && old(self).frames()[v].ppn.0 == q)),
            old(self).kind() == MapType::Identical ==> forall|q: int| #[trigger] final(mem).allocated(q) == old(mem).allocated(q),
    {
        let ghost a0 = *self;
        let ghost mem0 = *mem;
        if self.map_type == MapType::Framed {
            let start = self.vpn_range.get_start();
            let end = self.vpn_range.get_end();
            let mut vpn = start;
            while vpn.0 < end.0
                invariant
                    a0 == *old(self),
                    mem0 == *old(mem),
                    a0.kind() == MapType::Framed,
                    a0.range_ok(),
                    a0.frames_upto(a0.end()),
                    a0.frames_owned_between(mem0, Set::<int>::empty(), a0.start(), a0.end()),
                    start.0 == a0.start(),
                    end.0 == a0.end(),
                    start.0 <= vpn.0 <= end.0,
                    mem.wf(),
                    mem.phys == mem0.phys,
                    mem.allocator.end() == mem0.allocator.end(),
                    mem.allocator.free_count() >= mem0.allocator.free_count(),
                    forall|v: u64| #[trigger] self.frames().contains_key(v) <==> vpn.0 <= v < end.0,
                    forall|v: u64| #[trigger] self.frames().contains_key(v) ==> self.frames()[v] == a0.frames()[v],
                    forall|q: int| #[trigger] mem.allocated(q) == (mem0.allocated(q) && !(exists|v: u64| start.0 <= v < vpn.0 && a0.frames()[v].ppn.0 == q)),
                decreases end.0 - vpn.0,
            {
                let ghost memb = *mem;
                let ghost fr = self.frames();
                proof {
                    let f = a0.frames()[vpn.0].ppn.0 as int;
                    assert(mem0.allocated(f));
                    if exists|v: u64| start.0 <= v < vpn.0 && a0.frames()[v].ppn.0 == f {
                        let v = choose|v: u64| start.0 <= v < vpn.0 && a0.frames()[v].ppn.0 == f;
                        assert(a0.frames()[v].ppn != a0.frames()[vpn.0].ppn);
                    }
                    assert(self.frames().contains_key(vpn.0));
                }
                if let Some(frame) = self.data_frames.remove(&vpn.0) {
                    mem.frame_dealloc(frame.ppn);
                    proof {
                        let f = frame.ppn.0 as int;
                        assert(f == a0.frames()[vpn.0].ppn.0);
                        assert forall|q: int| #[trigger] mem.allocated(q) == (mem0.allocated(q) && !(exists|v: u64| start.0 <= v < vpn.0 + 1 && a0.frames()[v].ppn.0 == q)) by {
                            if q == f {
                                assert(start.0 <= vpn.0 < vpn.0 + 1 && a0.frames()[vpn.0].ppn.0 == q);
                            } else {
                                assert(memb.allocated(q) == (mem0.allocated(q) && !(exists|v: u64| start.0 <= v < vpn.0 && a0.frames()[v].ppn.0 == q)));
                                if exists|v: u64| start.0 <= v < vpn.0 + 1 && a0.frames()[v].ppn.0 == q {
                                    let v = choose|v: u64| start.0 <= v < vpn.0 + 1 && a0.frames()[v].ppn.0 == q;
                                    assert(v != vpn.0);
                                    assert(start.0 <= v < vpn.0 && a0.frames()[v].ppn.0 == q);
                                }
                            }
                        }
                    }
                } else {
                    proof { assert(false); }
                }
                vpn.step();
            }
        }
    }
}

impl MemorySet {
    /// Gives back the frames of every area and forgets the areas; the page table keeps its
    /// entries.
    pub fn recycle_data_pages(&mut self, mem: &mut Memory)
        requires
            old(self).wf(*old(mem)),
            old(mem).wf(),
        ensures
            final(self).wf(*final(mem)),
            final(mem).wf(),
            final(mem).phys == old(mem).phys,
            final(mem).allocator.free_count() >= old(mem).allocator.free_count(),
            final(self).area_seq().len() == 0,
            final(self).table() == old(self).table(),
            forall|q: int| #[trigger] final(mem).allocated(q) ==> old(mem).allocated(q),
            forall|q: int| #[trigger] old(mem).allocated(q) && !final(mem).allocated(q) ==> exists|i: int, v: u64|
                0 <= i < old(self).area_seq().len() && old(self).area_seq()[i].kind() == MapType::Framed
                    && old(self).area_seq()[i].has_page(v) && old(self).area_seq()[i].frames()[v].ppn.0 == q,
            forall|i: int, v: u64|
                0 <= i < old(self).area_seq().len() && old(self).area_seq()[i].kind() == MapType::Framed
                    && #[trigger] old(self).area_seq()[i].has_page(v) ==> !final(mem).allocated(old(self).area_seq()[i].frames()[v].ppn.0 as int),
    {
        let ghost areas0 = self.areas@;
        let ghost mem0 = *mem;
        let ghost n0 = self.areas@.len();
        proof {
            self.page_table.lemma_frames_allocated(mem0);
        }
        while self.areas.len() > 0
            invariant
                areas0 == old(self).area_seq(),
                mem0 == *old(mem),
                self.page_table == old(self).table(),
                self.page_table.wf(*mem),
                mem.wf(),
                mem.phys == mem0.phys,
                mem.allocator.free_count() >= mem0.allocator.free_count(),
                areas_ok(self.areas@, &self.page_table, *mem),
                n0 == areas0.len(),
                self.areas@.len() <= n0,
                forall|i: int| 0 <= i < self.areas@.len() ==> #[trigger] self.areas@[i] == areas0[i + (n0 - self.areas@.len())],
                forall|q: int| #[trigger] mem.allocated(q) ==> mem0.allocated(q),
                forall|q: int| #[trigger] mem0.allocated(q) && !mem.allocated(q) ==> exists|i: int, v: u64|
                    0 <= i < n0 - self.areas@.len() && areas0[i].kind() == MapType::Framed
                        && areas0[i].has_page(v) && areas0[i].frames()[v].ppn.0 == q,
                forall|i: int, v: u64|
                    0 <= i < n0 - self.areas@.len() && areas0[i].kind() == MapType::Framed
                        && #[trigger] areas0[i].has_page(v) ==> !mem.allocated(areas0[i].frames()[v].ppn.0 as int),
                self.wf(*mem) ==> true,
            decreases self.areas@.len(),
        {
            let ghost memb = *mem;
            let ghost areasb = self.areas@;
            let ghost done = n0 - areasb.len();
            proof {
                assert(areasb[0] == areas0[0 + (n0 - areasb.len())]);
            }
            let mut area = self.areas.remove(0);
            proof {
                assert(areasb[0].area_ok(&self.page_table, memb));
                assert(area.frames_owned_between(memb, Set::<int>::empty(), area.start(), area.end()));
            }
            let ghost area_b = area;
            area.release_frames(mem);
            proof {
                lemma_same_outside_refl(&mem.phys, Set::<int>::empty());
                assert forall|p: int| #[trigger] self.page_table.frame_set().contains(p) implies mem.allocated(p) by {
                    self.page_table.lemma_frames_allocated(memb);
                    assert(memb.allocated(p));
                    if area_b.kind() == MapType::Framed && exists|v: u64| area_b.start() <= v < area_b.end() && area_b.frames()[v].ppn.0 == p {
                        let v = choose|v: u64| area_b.start() <= v < area_b.end() && area_b.frames()[v].ppn.0 == p;
                        assert(areasb[0].area_ok(&self.page_table, memb));
                    }
                }
                self.page_table.lemma_frame_local(memb, *mem, Set::<int>::empty());
                lemma_remove_areas_ok(areasb, 0, &self.page_table, memb, &self.page_table, *mem);
                assert(self.areas@ == areasb.remove(0));
                assert(areas0[done] == area_b);
                assert forall|i: int| 0 <= i < self.areas@.len() implies #[trigger] self.areas@[i] == areas0[i + (n0 - self.areas@.len())] by {
                    assert(self.areas@[i] == areasb[i + 1]);
                }
                assert forall|q: int| #[trigger] mem0.allocated(q) && !mem.allocated(q) implies exists|i: int, v: u64|
                    0 <= i < n0 - self.areas@.len() && areas0[i].kind() == MapType::Framed
                        && areas0[i].has_page(v) && areas0[i].frames()[v].ppn.0 == q by {
                    if memb.allocated(q) {
                        assert(area_b.kind() == MapType::Framed);
                        let v = choose|v: u64| area_b.start() <= v < area_b.end() && area_b.frames()[v].ppn.0 == q;
                        assert(areas0[done].has_page(v));
                    }
                }
                assert forall|i: int, v: u64|
                    0 <= i < n0 - self.areas@.len() && areas0[i].kind() == MapType::Framed
                        && #[trigger] areas0[i].has_page(v) implies !mem.allocated(areas0[i].frames()[v].ppn.0 as int) by {
                    if i == done {
                        assert(area_b.start() <= v < area_b.end() && area_b.frames()[v].ppn.0 == areas0[i].frames()[v].ppn.0);
                    }
                }
            }
        }
    }
}

/// Replacing area `k` by a shrunk copy keeps the areas fully mapped and apart.
proof fn lemma_shrink_areas_ok(areas0: Seq<MapArea>, k: int, a1: MapArea, pt: &PageTable, mem0: Memory, pt1: &PageTable, mem1: Memory)
    requires
        0 <= k < areas0.len(),
        areas_ok(areas0, pt, mem0),
        a1.area_ok(pt1, mem1),
        a1.start() == areas0[k].start(),
        a1.end() <= areas0[k].end(),
        a1.kind() == areas0[k].kind(),
        forall|v: u64| #[trigger] a1.frames().contains_key(v) ==> a1.frames()[v] == areas0[k].frames()[v],
        pt1.frame_set() == pt.frame_set(),
        mem1.phys.first() == mem0.phys.first(),
        mem1.phys.bytes().len() == mem0.phys.bytes().len(),
        forall|kk: u64| #[trigger] pt.view_in(mem0.phys).contains_key(kk) && !key_in(kk, a1.end(), areas0[k].end())
            ==> pt1.view_in(mem1.phys).contains_key(kk) && pt1.view_in(mem1.phys)[kk] == pt.view_in(mem0.phys)[kk],
        areas0[k].kind() == MapType::Framed ==> forall|q: int| #[trigger] mem1.allocated(q) == (mem0.allocated(q) && !(exists|v: u64| a1.end() <= v < areas0[k].end() && areas0[k].frames()[v].ppn.0 == q)),
        areas0[k].kind() == MapType::Identical ==> forall|q: int| #[trigger] mem1.allocated(q) == mem0.allocated(q),
    ensures
        areas_ok(areas0.update(k, a1), pt1, mem1),
{
    let areas = areas0.update(k, a1);
    let ak = areas0[k];
    assert forall|i: int| 0 <= i < areas.len() implies #[trigger] areas[i].area_ok(pt1, mem1) by {
        if i != k {
            let a = areas0[i];
            assert(a.area_ok(pt, mem0));
            assert forall|v: u64| a.start() <= v < a.end() implies #[trigger] pt1.view_in(mem1.phys).contains_key(vpn_key(v))
                && pt1.view_in(mem1.phys)[vpn_key(v)] == a.entry_for(v) by {
                assert(pt.view_in(mem0.phys).contains_key(vpn_key(v)));
                assert(pt.view_in(mem0.phys)[vpn_key(v)] == a.entry_for(v));
                if key_in(vpn_key(v), a1.end(), ak.end()) {
                    let w = choose|w: u64| a1.end() <= w < ak.end() && #[trigger] vpn_key(w) == vpn_key(v);
                    assert(areas0[i].has_page(v) && areas0[k].has_page(w));
                }
                assert(pt1.view_in(mem1.phys).contains_key(vpn_key(v)));
            }
            if a.kind() == MapType::Framed {
                assert forall|v: u64| a.start() <= v < a.end() implies {
                    &&& mem1.allocated(#[trigger] a.frames()[v].ppn.0 as int)
                    &&& mem1.phys.has_frame(a.frames()[v].ppn.0 as int)
                    &&& !pt1.frame_set().contains(a.frames()[v].ppn.0 as int)
                } by {
                    let f = a.frames()[v].ppn.0 as int;
                    assert(mem0.allocated(f));
                    if ak.kind() == MapType::Framed {
                        if exists|w: u64| a1.end() <= w < ak.end() && ak.frames()[w].ppn.0 == f {
                            let w = choose|w: u64| a1.end() <= w < ak.end() && ak.frames()[w].ppn.0 == f;
                            assert(areas0[i].has_page(v) && areas0[k].has_page(w));
                            assert(areas0[i].frames()[v].ppn != areas0[k].frames()[w].ppn);
                        }
                    }
                }
            }
        }
    }
    assert forall|i: int, j: int, v: u64, w: u64|
        0 <= i < areas.len() && 0 <= j < areas.len() && i != j && #[trigger] areas[i].has_page(v)
            && #[trigger] areas[j].has_page(w) implies vpn_key(v) != vpn_key(w) by {
        assert(areas0[i].has_page(v) && areas0[j].has_page(w));
    }
    assert forall|i: int, j: int, v: u64, w: u64|
        0 <= i < areas.len() && 0 <= j < areas.len() && i != j && areas[i].kind() == MapType::Framed
            && areas[j].kind() == MapType::Framed && areas[i].has_page(v) && areas[j].has_page(w)
            implies #[trigger] areas[i].frames()[v].ppn != #[trigger] areas[j].frames()[w].ppn by {
        if i == k {
            assert(a1.frames().contains_key(v));
            assert(areas0[i].has_page(v));
        }
        if j == k {
            assert(a1.frames().contains_key(w));
            assert(areas0[j].has_page(w));
        }
        assert(areas0[i].frames()[v].ppn != areas0[j].frames()[w].ppn);
    }
}

/// Replacing area `k` by a copy that grew over fresh pages and frames keeps the areas fully
/// mapped and apart.
proof fn lemma_append_areas_ok(areas0: Seq<MapArea>, k: int, a1: MapArea, pt0: &PageTable, mem0: Memory, pt1: &PageTable, mem1: Memory)
    requires
        0 <= k < areas0.len(),
        areas_ok(areas0, pt0, mem0),
        a1.area_ok(pt1, mem1),
        a1.mapped_so_far(pt1, mem1, pt0, mem0, areas0[k].end(), a1.end()),
        a1.start() == areas0[k].start(),
        a1.end() >= areas0[k].end(),
        a1.kind() == areas0[k].kind(),
        forall|v: u64| areas0[k].has_page(v) ==> #[trigger] a1.frames()[v] == areas0[k].frames()[v],
        forall|v: u64| areas0[k].end() <= v < a1.end() ==> !pt0.view_in(mem0.phys).contains_key(#[trigger] vpn_key(v)),
    ensures
        areas_ok(areas0.update(k, a1), pt1, mem1),
{
    let areas = areas0.update(k, a1);
    let ak = areas0[k];
    assert forall|q: int| #[trigger] mem0.allocated(q) implies mem1.allocated(q) by {}
    lemma_areas_grow(areas0, pt0, mem0, pt1, mem1);
    assert forall|i: int| 0 <= i < areas.len() implies #[trigger] areas[i].area_ok(pt1, mem1) by {
        if i != k {
            assert(areas0[i].area_ok(pt1, mem1));
        }
    }
    assert forall|i: int, j: int, v: u64, w: u64|
        0 <= i < areas.len() && 0 <= j < areas.len() && i != j && #[trigger] areas[i].has_page(v)
            && #[trigger] areas[j].has_page(w) implies vpn_key(v) != vpn_key(w) by {
        if i == k && !areas0[k].has_page(v) {
            assert(areas0[j].area_ok(pt0, mem0));
            assert(pt0.view_in(mem0.phys).contains_key(vpn_key(w)));
        } else if j == k && !areas0[k].has_page(w) {
            assert(areas0[i].area_ok(pt0, mem0));
            assert(pt0.view_in(mem0.phys).contains_key(vpn_key(v)));
        } else {
            assert(areas0[i].has_page(v) && areas0[j].has_page(w));
        }
    }
    assert forall|i: int, j: int, v: u64, w: u64|
        0 <= i < areas.len() && 0 <= j < areas.len() && i != j && areas[i].kind() == MapType::Framed
            && areas[j].kind() == MapType::Framed && areas[i].has_page(v) && areas[j].has_page(w)
            implies #[trigger] areas[i].frames()[v].ppn != #[trigger] areas[j].frames()[w].ppn by {
        if i == k && !areas0[k].has_page(v) {
            assert(areas0[j].area_ok(pt0, mem0));
            assert(mem0.allocated(areas0[j].frames()[w].ppn.0 as int));
            assert(!mem0.allocated(a1.frames()[v].ppn.0 as int));
        } else if j == k && !areas0[k].has_page(w) {
            assert(areas0[i].area_ok(pt0, mem0));
            assert(mem0.allocated(areas0[i].frames()[v].ppn.0 as int));
            assert(!mem0.allocated(a1.frames()[w].ppn.0 as int));
        } else {
            assert(areas0[i].frames()[v].ppn != areas0[j].frames()[w].ppn);
        }
    }
}

impl MemorySet {
    /// Ends the first area that starts at the page of `start` at the page boundary at or above
    /// `new_end`, unmapping the pages beyond and giving back their frames. `false` when no area
    /// starts there.
    pub fn shrink_to(&mut self, mem: &mut Memory, start: VirtAddr, new_end: VirtAddr) -> (r: bool)
        requires
            old(self).wf(*old(mem)),
            old(mem).wf(),
            new_end.0 <= u64::MAX - PAGE_SIZE + 1,
            forall|i: int| #[trigger] is_first_match(old(self).areas_view(), i, floor_page(start.0 as int), None)
                ==> old(self).areas_view()[i].0 <= ceil_page(new_end.0 as int) <= old(self).areas_view()[i].1,
        ensures
            final(self).wf(*final(mem)),
            final(mem).wf(),
            r == has_match(old(self).areas_view(), floor_page(start.0 as int), None),
            !r ==> final(self).area_seq() == old(self).area_seq() && final(self).view_in(final(mem).phys)
                == old(self).view_in(old(mem).phys) && forall|q: int| #[trigger] final(mem).allocated(q) == old(mem).allocated(q),
            forall|i: int| #[trigger] is_first_match(old(self).areas_view(), i, floor_page(start.0 as int), None) ==> {
                &&& final(self).areas_view() == old(self).areas_view().update(i, (old(self).areas_view()[i].0, ceil_page(new_end.0 as int), old(self).areas_view()[i].2, old(self).areas_view()[i].3))
                &&& forall|k: u64| #[trigger] final(self).view_in(final(mem).phys).contains_key(k) <==> (old(self).view_in(old(mem).phys).contains_key(k) && !key_in(k, ceil_page(new_end.0 as int), old(self).areas_view()[i].1))
                &&& forall|k: u64| #[trigger] final(self).view_in(final(mem).phys).contains_key(k) ==> final(self).view_in(final(mem).phys)[k] == old(self).view_in(old(mem).phys)[k]
                &&& old(self).area_seq()[i].kind() == MapType::Framed ==> forall|q: int| #[trigger] final(mem).allocated(q)
                    == (old(mem).allocated(q) && !(exists|v: u64| ceil_page(new_end.0 as int) <= v < old(self).area_seq()[i].end()
                        && old(self).area_seq()[i].frames()[v].ppn.0 == q))
            },
            old(mem).phys.same_outside(&final(mem).phys, old(self).table().frame_set()),
            final(self).table().frame_set() == old(self).table().frame_set(),
    {
        match self.find_area(start.floor(), None) {
            None => {
                proof { lemma_same_outside_refl(&mem.phys, self.table().frame_set()); }
                false
            },
            Some(i) => {
                let ghost areas0 = self.areas@;
                let ghost pt0 = self.page_table;
                let ghost mem0 = *mem;
                proof {
                    lemma_first_match_unique(old(self).areas_view(), i as int, floor_page(start.0 as int), None);
                    assert(areas0[i as int].area_ok(&pt0, mem0));
                }
                let mut area = self.areas.remove(i);
                area.shrink_to(&mut self.page_table, mem, new_end.ceil());
                self.areas.insert(i, area);
                proof {
                    assert(self.areas@ =~= areas0.update(i as int, area));
                    lemma_shrink_areas_ok(areas0, i as int, area, &pt0, mem0, &self.page_table, *mem);
                    assert(self.areas_view() =~= old(self).areas_view().update(i as int, (old(self).areas_view()[i as int].0, ceil_page(new_end.0 as int), old(self).areas_view()[i as int].2, old(self).areas_view()[i as int].3)));
                }
                true
            },
        }
    }

    /// Extends the first area that starts at the page of `start` up to the page boundary at or
    /// above `new_end`, mapping the new pages to fresh frames. `false` when no area starts there,
    /// or when a frame cannot be had, which happens only with fewer than 3 frames per new page
    /// free; the areas and mappings are then as before.
    pub fn append_to(&mut self, mem: &mut Memory, start: VirtAddr, new_end: VirtAddr) -> (r: bool)
        requires
            old(self).wf(*old(mem)),
            old(mem).wf(),
            new_end.0 <= u64::MAX - PAGE_SIZE + 1,
            forall|i: int| #[trigger] is_first_match(old(self).areas_view(), i, floor_page(start.0 as int), None) ==> {
                &&& old(self).areas_view()[i].1 <= ceil_page(new_end.0 as int)
                &&& ceil_page(new_end.0 as int) - old(self).areas_view()[i].0 <= 0x800_0000
                &&& forall|v: u64| old(self).areas_view()[i].1 <= v < ceil_page(new_end.0 as int) ==> !old(self).view_in(old(mem).phys).contains_key(#[trigger] vpn_key(v))
            },
        ensures
            final(self).wf(*final(mem)),
            final(mem).wf(),
            r ==> has_match(old(self).areas_view(), floor_page(start.0 as int), None),
            !has_match(old(self).areas_view(), floor_page(start.0 as int), None) ==> final(self).area_seq() == old(self).area_seq()
                && forall|q: int| #[trigger] final(mem).allocated(q) == old(mem).allocated(q),
            !r ==> final(self).areas_view() == old(self).areas_view(),
            !r ==> final(self).view_in(final(mem).phys) == old(self).view_in(old(mem).phys),
            !r ==> grown_only(&old(self).table(), *old(mem), &final(self).table(), *final(mem)),
            view_extends(old(self).view_in(old(mem).phys), final(self).view_in(final(mem).phys)),
            forall|q: int| #[trigger] old(mem).allocated(q) ==> final(mem).allocated(q),
            old(mem).phys.same_outside(&final(mem).phys, final(self).table().frame_set() + unallocated(*old(mem))),
            forall|i: int| #[trigger] is_first_match(old(self).areas_view(), i, floor_page(start.0 as int), None) ==> {
                &&& r ==> final(self).areas_view() == old(self).areas_view().update(i, (old(self).areas_view()[i].0, ceil_page(new_end.0 as int), old(self).areas_view()[i].2, old(self).areas_view()[i].3))
                &&& r ==> forall|k: u64| #[trigger] final(self).view_in(final(mem).phys).contains_key(k) ==> old(self).view_in(old(mem).phys).contains_key(k) || key_in(k, old(self).areas_view()[i].1, ceil_page(new_end.0 as int))
                &&& r ==> final(self).area_seq()[i].zeroed_between(final(mem).phys, old(self).areas_view()[i].1, ceil_page(new_end.0 as int))
                &&& r && old(self).area_seq()[i].kind() == MapType::Framed ==> forall|v: u64| old(self).areas_view()[i].1 <= v < ceil_page(new_end.0 as int)
                    ==> !old(mem).allocated(#[trigger] final(self).area_seq()[i].frames()[v].ppn.0 as int)
                &&& !r ==> old(mem).allocator.free_count() < 3 * (ceil_page(new_end.0 as int) - old(self).areas_view()[i].1)
            },
    {
        match self.find_area(start.floor(), None) {
            None => {
                proof {
                    lemma_grown_only_refl(&self.page_table, *mem);
                }
                false
            },
            Some(i) => {
                let ghost areas0 = self.areas@;
                let ghost pt0 = self.page_table;
                let ghost mem0 = *mem;
                proof {
                    lemma_first_match_unique(old(self).areas_view(), i as int, floor_page(start.0 as int), None);
                    assert(areas0[i as int].area_ok(&pt0, mem0));
                }
                let mut area = self.areas.remove(i);
                let ghost area0 = area;
                let ok = area.append_to(&mut self.page_table, mem, new_end.ceil());
                self.areas.insert(i, area);
                proof {
                    assert(self.areas@ =~= areas0.update(i as int, area));
                    if area0.kind() == MapType::Identical {
                        assert(area.frames() =~= area0.frames());
                    }
                    if ok {
                        assert forall|v: u64| areas0[i as int].has_page(v) implies #[trigger] area.frames()[v] == areas0[i as int].frames()[v] by {
                            if area.kind() == MapType::Framed {
                                assert(area0.frames().contains_key(v));
                            }
                        }
                        lemma_append_areas_ok(areas0, i as int, area, &pt0, mem0, &self.page_table, *mem);
                        assert(self.areas_view() =~= old(self).areas_view().update(i as int, (old(self).areas_view()[i as int].0, ceil_page(new_end.0 as int), old(self).areas_view()[i as int].2, old(self).areas_view()[i as int].3)));
                    } else {
                        assert forall|q: int| #[trigger] mem0.allocated(q) implies mem.allocated(q) by {}
                        lemma_areas_grow(areas0, &pt0, mem0, &self.page_table, *mem);
                        lemma_replace_same_area(areas0, i as int, area, &self.page_table, *mem);
                        assert(self.areas_view() =~= old(self).areas_view());
                    }
                }
                ok
            },
        }
    }
}

/// Nothing changed is a growth by nothing.
proof fn lemma_grown_only_refl(pt: &PageTable, mem: Memory)
    requires
        pt.wf(mem),
        mem.wf(),
    ensures
        grown_only(pt, mem, pt, mem),
{
    pt.lemma_frames_allocated(mem);
    lemma_same_outside_refl(&mem.phys, pt.frame_set() + unallocated(mem));
}

/// Replacing area `k` by one over the same pages, of the same type, with the same frames, that is
/// fully mapped keeps the areas fully mapped and apart.
proof fn lemma_replace_same_area(areas: Seq<MapArea>, k: int, a: MapArea, pt: &PageTable, mem: Memory)
    requires
        0 <= k < areas.len(),
        areas_ok(areas, pt, mem),
        a.area_ok(pt, mem),
        a.start() == areas[k].start(),
        a.end() == areas[k].end(),
        a.kind() == areas[k].kind(),
        a.frames() == areas[k].frames(),
    ensures
        areas_ok(areas.update(k, a), pt, mem),
{
    let b = areas.update(k, a);
    assert forall|i: int| 0 <= i < b.len() implies #[trigger] b[i].area_ok(pt, mem) by {
        if i != k {
            assert(b[i] == areas[i]);
        }
    }
    assert forall|i: int, j: int, v: u64, w: u64|
        0 <= i < b.len() && 0 <= j < b.len() && i != j && #[trigger] b[i].has_page(v)
            && #[trigger] b[j].has_page(w) implies vpn_key(v) != vpn_key(w) by {
        assert(areas[i].has_page(v) && areas[j].has_page(w));
    }
    assert forall|i: int, j: int, v: u64, w: u64|
        0 <= i < b.len() && 0 <= j < b.len() && i != j && b[i].kind() == MapType::Framed
            && b[j].kind() == MapType::Framed && b[i].has_page(v) && b[j].has_page(w)
            implies #[trigger] b[i].frames()[v].ppn != #[trigger] b[j].frames()[w].ppn by {
        assert(areas[i].frames()[v].ppn != areas[j].frames()[w].ppn);
    }
}

/// Page number of the trampoline, the highest page of the address space.
pub open spec fn trampoline_vpn() -> u64 {
    0x7ff_ffff
}

/// The entry that maps the trampoline to the frame at `strampoline`: readable, executable, valid.
pub open spec fn trampoline_entry(strampoline: u64) -> PageTableEntry {
    PageTableEntry { bits: pte_bits((strampoline % 0x100_0000_0000_0000) / PAGE_SIZE, 11) }
}

/// The summary of an area over the pages `[floor(start_va), ceil(end_va))`.
pub open spec fn area_over(start_va: u64, end_va: u64, kind: MapType, perm: u8) -> (int, int, MapType, u8) {
    (floor_page(start_va as int), ceil_page(end_va as int), kind, perm)
}

impl MemorySet {
    /// Maps the trampoline page, at the top of the address space, to the frame at `strampoline`,
    /// readable and executable; it belongs to no area. `false` when a frame cannot be had, which
    /// happens only with fewer than 2 frames free.
    fn map_trampoline(&mut self, mem: &mut Memory, strampoline: PhysAddr) -> (r: bool)
        requires
            old(self).wf(*old(mem)),
            old(mem).wf(),
            strampoline.0 % PAGE_SIZE == 0,
            !old(self).view_in(old(mem).phys).contains_key(vpn_key(trampoline_vpn())),
        ensures
            final(self).wf(*final(mem)),
            final(mem).wf(),
            final(self).area_seq() == old(self).area_seq(),
            grown_only(&old(self).table(), *old(mem), &final(self).table(), *final(mem)),
            r ==> final(self).view_in(final(mem).phys) == old(self).view_in(old(mem).phys).insert(vpn_key(trampoline_vpn()), trampoline_entry(strampoline.0)),
            r ==> final(mem).allocator.free_count() >= old(mem).allocator.free_count() - 2,
            !r ==> final(self).view_in(final(mem).phys) == old(self).view_in(old(mem).phys),
            !r ==> old(mem).allocator.free_count() <= 1,
            !r ==> final(mem).allocator.free_count() == 0,
    {
        let ghost pt0 = self.page_table;
        let ghost mem0 = *mem;
        let va = VirtAddr::from_u64(TRAMPOLINE);
        let vpn = va.floor();
        let pa = PhysAddr::from_u64(strampoline.0);
        let ppn = pa.floor();
        let flags = PTEFlags::R().union(PTEFlags::X());
        proof {
            assert(vpn.0 == trampoline_vpn());
            let b: u8 = 2u8 | 8u8;
            assert(b | 1u8 == 11u8) by (bit_vector) requires b == 2u8 | 8u8;
            assert(strampoline.0 % 0x100_0000_0000_0000 == pa.0);
        }
        let r = self.page_table.map(mem, vpn, ppn, flags);
        proof {
            lemma_areas_grow(self.areas@, &pt0, mem0, &self.page_table, *mem);
            lemma_same_outside_refl(&mem.phys, Set::<int>::empty());
            lemma_same_outside_trans(&mem0.phys, &mem.phys, &mem.phys, self.page_table.frame_set(), Set::<int>::empty(), self.page_table.frame_set() + unallocated(mem0));
        }
        r
    }

    /// Maps a framed area over the pages `[floor(start_va), ceil(end_va))` with `permission`,
    /// on fresh frames, and adds it; none of its pages may be mapped. `false`, with no area
    /// added and no mapping changed, when a frame cannot be had, which happens only with fewer
    /// than 3 frames per page free.
    pub fn insert_framed_area(&mut self, mem: &mut Memory, start_va: VirtAddr, end_va: VirtAddr, permission: MapPermission) -> (r: bool)
        requires
            old(self).wf(*old(mem)),
            old(mem).wf(),
            floor_page(start_va.0 as int) <= ceil_page(end_va.0 as int),
            end_va.0 <= u64::MAX - PAGE_SIZE + 1,
            ceil_page(end_va.0 as int) - floor_page(start_va.0 as int) <= 0x800_0000,
            forall|v: u64| floor_page(start_va.0 as int) <= v < ceil_page(end_va.0 as int) ==> !old(self).view_in(old(mem).phys).contains_key(#[trigger] vpn_key(v)),
        ensures
            final(self).wf(*final(mem)),
            final(mem).wf(),
            final(self).table().root() == old(self).table().root(),
            view_extends(old(self).view_in(old(mem).phys), final(self).view_in(final(mem).phys)),
            forall|q: int| #[trigger] old(mem).allocated(q) ==> final(mem).allocated(q),
            r ==> final(self).areas_view() == old(self).areas_view().push(area_over(start_va.0, end_va.0, MapType::Framed, permission.bits)),
            r ==> forall|k: u64| #[trigger] final(self).view_in(final(mem).phys).contains_key(k) <==> old(self).view_in(old(mem).phys).contains_key(k)
                || key_in(k, floor_page(start_va.0 as int), ceil_page(end_va.0 as int)),
            r ==> forall|v: u64| floor_page(start_va.0 as int) <= v < ceil_page(end_va.0 as int) ==> !old(mem).allocated(#[trigger] final(self).area_seq().last().frames()[v].ppn.0 as int),
            r ==> final(self).area_seq().last().zeroed_between(final(mem).phys, floor_page(start_va.0 as int), ceil_page(end_va.0 as int)),
            !r ==> final(self).areas_view() == old(self).areas_view(),
            !r ==> final(self).view_in(final(mem).phys) == old(self).view_in(old(mem).phys),
            !r ==> old(mem).allocator.free_count() < 3 * (ceil_page(end_va.0 as int) - floor_page(start_va.0 as int)),
            old(mem).phys.same_outside(&final(mem).phys, final(self).table().frame_set() + unallocated(*old(mem))),
            old(self).table().frame_set().subset_of(final(self).table().frame_set()),
            forall|q: int| #[trigger] final(self).table().frame_set().contains(q) && !old(self).table().frame_set().contains(q) ==> !old(mem).allocated(q),
            forall|q: int| final(self).holds_data_frame(q) ==> old(self).holds_data_frame(q) || !old(mem).allocated(q),
    {
        let area = MapArea::new(start_va, end_va, MapType::Framed, permission);
        self.push_fresh(mem, area)
    }

    /// Maps a framed area over the pages `[start, end)` with permission `flag`, on fresh frames,
    /// and adds it; none of its pages may be mapped. `false`, with no area added and no mapping
    /// changed, when a frame cannot be had, which happens only with fewer than 3 frames per page
    /// free.
    pub fn mmap(&mut self, mem: &mut Memory, start: VirtPageNum, end: VirtPageNum, flag: MapPermission) -> (r: bool)
        requires
            old(self).wf(*old(mem)),
            old(mem).wf(),
            start.0 <= end.0 < 0x10_0000_0000_0000,
            end.0 - start.0 <= 0x800_0000,
            forall|v: u64| start.0 <= v < end.0 ==> !old(self).view_in(old(mem).phys).contains_key(#[trigger] vpn_key(v)),
        ensures
            final(self).wf(*final(mem)),
            final(mem).wf(),
            final(self).table().root() == old(self).table().root(),
            view_extends(old(self).view_in(old(mem).phys), final(self).view_in(final(mem).phys)),
            forall|q: int| #[trigger] old(mem).allocated(q) ==> final(mem).allocated(q),
            r ==> final(self).areas_view() == old(self).areas_view().push((start.0 as int, end.0 as int, MapType::Framed, flag.bits)),
            r ==> forall|k: u64| #[trigger] final(self).view_in(final(mem).phys).contains_key(k) <==> old(self).view_in(old(mem).phys).contains_key(k)
                || key_in(k, start.0 as int, end.0 as int),
            r ==> forall|v: u64| start.0 <= v < end.0 ==> !old(mem).allocated(#[trigger] final(self).area_seq().last().frames()[v].ppn.0 as int),
            r ==> final(self).area_seq().last().zeroed_between(final(mem).phys, start.0 as int, end.0 as int),
            !r ==> final(self).areas_view() == old(self).areas_view(),
            !r ==> final(self).view_in(final(mem).phys) == old(self).view_in(old(mem).phys),
            !r ==> old(mem).allocator.free_count() < 3 * (end.0 - start.0),
    {
        let start_va = start.to_va();
        let end_va = end.to_va();
        proof {
            assert(floor_page(start_va.0 as int) == start.0);
            assert(ceil_page(end_va.0 as int) == end.0);
        }
        let area = MapArea::new(start_va, end_va, MapType::Framed, flag);
        self.push_fresh(mem, area)
    }

    /// Maps the area `area`, which records no frame yet and none of whose pages is mapped, and
    /// adds it. `false`, with no area added and no mapping changed, when a frame cannot be had.
    fn push_fresh(&mut self, mem: &mut Memory, area: MapArea) -> (r: bool)
        requires
            old(self).wf(*old(mem)),
            old(mem).wf(),
            area.range_ok(),
            area.frames() == Map::<u64, FrameTracker>::empty(),
            forall|v: u64| area.has_page(v) ==> !old(self).view_in(old(mem).phys).contains_key(#[trigger] vpn_key(v)),
        ensures
            final(self).wf(*final(mem)),
            final(mem).wf(),
            final(self).table().root() == old(self).table().root(),
            view_extends(old(self).view_in(old(mem).phys), final(self).view_in(final(mem).phys)),
            forall|q: int| #[trigger] old(mem).allocated(q) ==> final(mem).allocated(q),
            r ==> final(self).areas_view() == old(self).areas_view().push(area_summary(area)),
            r ==> forall|k: u64| #[trigger] final(self).view_in(final(mem).phys).contains_key(k) <==> old(self).view_in(old(mem).phys).contains_key(k)
                || key_in(k, area.start(), area.end()),
            r ==> area.kind() == MapType::Framed ==> forall|v: u64| area.has_page(v) ==> !old(mem).allocated(#[trigger] final(self).area_seq().last().frames()[v].ppn.0 as int),
            r ==> final(self).area_seq().last().zeroed_between(final(mem).phys, area.start(), area.end()),
            r ==> final(mem).allocator.free_count() >= old(mem).allocator.free_count() - 3 * (area.end() - area.start()),
            !r ==> final(self).areas_view() == old(self).areas_view(),
            !r ==> final(self).view_in(final(mem).phys) == old(self).view_in(old(mem).phys),
            !r ==> old(mem).allocator.free_count() < 3 * (area.end() - area.start()),
            !r && area.kind() == MapType::Identical ==> final(mem).allocator.free_count() == 0,
            !r && area.kind() == MapType::Identical ==> old(mem).allocator.free_count() < 2 * tables_needed(area.start(), area.end()),
            r && area.kind() == MapType::Identical ==> final(mem).allocator.free_count()
                >= old(mem).allocator.free_count() - 2 * tables_needed(area.start(), area.end()),
            final(mem).allocator.end() == old(mem).allocator.end(),
            old(mem).phys.same_outside(&final(mem).phys, final(self).table().frame_set() + unallocated(*old(mem))),
            old(self).table().frame_set().subset_of(final(self).table().frame_set()),
            forall|q: int| #[trigger] final(self).table().frame_set().contains(q) && !old(self).table().frame_set().contains(q) ==> !old(mem).allocated(q),
            forall|q: int| final(self).holds_data_frame(q) ==> old(self).holds_data_frame(q) || !old(mem).allocated(q),
    {
        let ghost areas0 = self.areas@;
        proof {
            if area.kind() == MapType::Identical {
                assert(area.frames().dom() =~= Set::<u64>::empty());
            }
        }
        let r = self.push(mem, area, None);
        proof {
            if r {
                let last = self.area_seq().last();
                assert(self.area_seq() == areas0.push(last));
                assert(self.areas_view() =~= old(self).areas_view().push(area_summary(area))) by {
                    assert(area_summary(last) == area_summary(area));
                }
                assert(last.area_ok(&self.table(), *mem)) by {
                    assert(self.area_seq()[self.area_seq().len() - 1] == last);
                }
                assert forall|k: u64| #[trigger] self.view_in(mem.phys).contains_key(k) <==> old(self).view_in(old(mem).phys).contains_key(k)
                    || key_in(k, area.start(), area.end()) by {
                    if key_in(k, area.start(), area.end()) {
                        let w = choose|w: u64| area.start() <= w < area.end() && #[trigger] vpn_key(w) == k;
                        assert(last.has_page(w));
                    }
                }
                assert forall|q: int| self.holds_data_frame(q) implies old(self).holds_data_frame(q) || !old(mem).allocated(q) by {
                    let (i, v) = choose|i: int, v: u64| 0 <= i < self.area_seq().len() && self.area_seq()[i].kind() == MapType::Framed
                        && self.area_seq()[i].has_page(v) && #[trigger] self.area_seq()[i].frames()[v].ppn.0 == q;
                    if i < areas0.len() {
                        assert(self.area_seq()[i] == old(self).area_seq()[i]);
                    } else {
                        assert(self.area_seq()[i] == last);
                        assert(area.has_page(v));
                    }
                }
            } else {
                assert(self.areas_view() =~= old(self).areas_view());
            }
        }
        r
    }
}

/// A page number below 2^27 is its own key.
pub proof fn lemma_small_key(v: u64)
    requires
        v < 0x800_0000,
    ensures
        vpn_key(v) == v,
{
    assert(v < 0x800_0000 ==> v & 0x7ff_ffff == v) by (bit_vector);
}

/// Addresses of the sections of the kernel image, of its end, and of the trampoline code.
#[derive(Clone, Copy)]
pub struct KernelLayout {
    /// start of `.text`
    pub stext: u64,
    /// end of `.text`
    pub etext: u64,
    /// start of `.rodata`
    pub srodata: u64,
    /// end of `.rodata`
    pub erodata: u64,
    /// start of `.data`
    pub sdata: u64,
    /// end of `.data`
    pub edata: u64,
    /// start of `.bss`, with the boot stack
    pub sbss_with_stack: u64,
    /// end of `.bss`
    pub ebss: u64,
    /// end of the kernel image
    pub ekernel: u64,
    /// start of the trampoline code
    pub strampoline: u64,
}

impl KernelLayout {
    /// The sections come in order, share no page, and end below `MEMORY_END`; the trampoline
    /// code starts a page.
    pub open spec fn wf(self) -> bool {
        &&& self.stext <= self.etext
        &&& ceil_page(self.etext as int) <= floor_page(self.srodata as int)
        &&& self.srodata <= self.erodata
        &&& ceil_page(self.erodata as int) <= floor_page(self.sdata as int)
        &&& self.sdata <= self.edata
        &&& ceil_page(self.edata as int) <= floor_page(self.sbss_with_stack as int)
        &&& self.sbss_with_stack <= self.ebss
        &&& ceil_page(self.ebss as int) <= floor_page(self.ekernel as int)
        &&& self.ekernel <= MEMORY_END
        &&& self.strampoline % PAGE_SIZE == 0
    }

    /// The areas of the kernel address space, in order: text (R X), read-only data (R), data
    /// (R W), bss (R W), and the physical memory after the image (R W), all identical.
    pub open spec fn kernel_areas(self) -> Seq<(int, int, MapType, u8)> {
        seq![
            area_over(self.stext, self.etext, MapType::Identical, 10),
            area_over(self.srodata, self.erodata, MapType::Identical, 2),
            area_over(self.sdata, self.edata, MapType::Identical, 6),
            area_over(self.sbss_with_stack, self.ebss, MapType::Identical, 6),
            area_over(self.ekernel, MEMORY_END, MapType::Identical, 6),
        ]
    }

    /// Number of frames that building the kernel address space takes at most: the root table,
    /// two tables for the trampoline, and two for each last-level table of the kernel areas.
    pub open spec fn kernel_table_frames(self) -> int {
        let a = self.kernel_areas();
        3 + 2 * (tables_needed(a[0].0, a[0].1) + tables_needed(a[1].0, a[1].1) + tables_needed(a[2].0, a[2].1)
            + tables_needed(a[3].0, a[3].1) + tables_needed(a[4].0, a[4].1))
    }
}

impl MemorySet {
    /// Adds the identical area over `[floor(start_va), ceil(end_va))` with permission `perm`
    /// to a space whose mapped pages all lie below `floor(start_va)`, but for the trampoline.
    fn push_identical_above(&mut self, mem: &mut Memory, start_va: u64, end_va: u64, perm: MapPermission) -> (r: bool)
        requires
            old(self).wf(*old(mem)),
            old(mem).wf(),
            start_va <= end_va <= MEMORY_END,
            forall|k: u64| #[trigger] old(self).view_in(old(mem).phys).contains_key(k) ==> k == vpn_key(trampoline_vpn()) || k < floor_page(start_va as int),
        ensures
            final(self).wf(*final(mem)),
            final(mem).wf(),
            final(self).table().root() == old(self).table().root(),
            view_extends(old(self).view_in(old(mem).phys), final(self).view_in(final(mem).phys)),
            r ==> final(self).areas_view() == old(self).areas_view().push(area_over(start_va, end_va, MapType::Identical, perm.bits)),
            r ==> forall|k: u64| #[trigger] final(self).view_in(final(mem).phys).contains_key(k) <==> old(self).view_in(old(mem).phys).contains_key(k)
                || key_in(k, floor_page(start_va as int), ceil_page(end_va as int)),
            r ==> forall|k: u64| #[trigger] final(self).view_in(final(mem).phys).contains_key(k) ==> k == vpn_key(trampoline_vpn()) || k < ceil_page(end_va as int),
            r ==> final(mem).allocator.free_count() >= old(mem).allocator.free_count() - 2 * tables_needed(floor_page(start_va as int), ceil_page(end_va as int)),
            !r ==> old(mem).allocator.free_count() < 2 * tables_needed(floor_page(start_va as int), ceil_page(end_va as int)),
            !r ==> final(mem).allocator.free_count() == 0,
            final(mem).allocator.end() == old(mem).allocator.end(),
    {
        let s = VirtAddr::from_u64(start_va);
        let e = VirtAddr::from_u64(end_va);
        let area = MapArea::new(s, e, MapType::Identical, perm);
        proof {
            lemma_small_key(trampoline_vpn());
            assert(s.0 == start_va && e.0 == end_va);
            assert(ceil_page(end_va as int) <= 0x88000);
            assert(area.start() == floor_page(start_va as int));
            assert forall|v: u64| area.has_page(v) implies !old(self).view_in(old(mem).phys).contains_key(#[trigger] vpn_key(v)) by {
                lemma_small_key(v);
                assert(v < 0x88000);
            }
        }
        let r = self.push_fresh(mem, area);
        proof {
            if r {
                assert forall|k: u64| #[trigger] self.view_in(mem.phys).contains_key(k) implies k == vpn_key(trampoline_vpn()) || k < ceil_page(end_va as int) by {
                    if key_in(k, area.start(), area.end()) {
                        let w = choose|w: u64| area.start() <= w < area.end() && #[trigger] vpn_key(w) == k;
                        lemma_small_key(w);
                    }
                }
            }
        }
        r
    }

    /// The kernel address space: the trampoline, and the identical areas of `layout`'s sections
    /// and of the physical memory after the image. `None` when frames run out, which happens only
    /// with fewer frames free than the page tables can need (`kernel_table_frames`); every frame
    /// is then taken.
    #[verifier::rlimit(30)]
    pub fn new_kernel(mem: &mut Memory, layout: KernelLayout) -> (r: Option<MemorySet>)
        requires
            old(mem).wf(),
            layout.wf(),
        ensures
            final(mem).wf(),
            old(mem).allocator.free_count() >= layout.kernel_table_frames() ==> r is Some,
            r is None ==> final(mem).allocator.free_count() == 0,
            final(mem).allocator.end() == old(mem).allocator.end(),
            r matches Some(ms) ==> {
                &&& ms.wf(*final(mem))
                &&& ms.areas_view() == layout.kernel_areas()
                &&& ms.view_in(final(mem).phys).contains_key(vpn_key(trampoline_vpn()))
                &&& ms.view_in(final(mem).phys)[vpn_key(trampoline_vpn())] == trampoline_entry(layout.strampoline)
                &&& forall|k: u64| #[trigger] ms.view_in(final(mem).phys).contains_key(k) <==> k == vpn_key(trampoline_vpn())
                    || exists|i: int| 0 <= i < 5 && key_in(k, layout.kernel_areas()[i].0, layout.kernel_areas()[i].1)
            },
    {
        let ghost a = layout.kernel_areas();
        let ghost f0 = mem.allocator.free_count();
        let ghost t: Seq<int> = Seq::new(5, |i: int| tables_needed(a[i].0, a[i].1));
        proof {
            assert forall|i: int| 0 <= i < 5 implies t[i] >= 0 by {
                lemma_tables_mono(a[i].0, a[i].0, a[i].1);
            }
            assert(layout.kernel_table_frames() == 3 + 2 * (t[0] + t[1] + t[2] + t[3] + t[4]));
        }
        let mut ms = match MemorySet::new_bare(mem) {
            None => return None,
            Some(ms) => ms,
        };
        proof {
            lemma_small_key(trampoline_vpn());
            assert(2u8 | 8u8 == 10u8 && 2u8 | 4u8 == 6u8) by (bit_vector);
        }
        if !ms.map_trampoline(mem, PhysAddr(layout.strampoline)) {
            return None;
        }
        let ghost v0 = ms.view_in(mem.phys);
        let ghost s0 = ms.areas_view();
        proof {
            assert(s0 =~= Seq::<(int, int, MapType, u8)>::empty());
        }
        if !ms.push_identical_above(mem, layout.stext, layout.etext, MapPermission::R().union(MapPermission::X())) {
            return None;
        }
        let ghost v1 = ms.view_in(mem.phys);
        if !ms.push_identical_above(mem, layout.srodata, layout.erodata, MapPermission::R()) {
            return None;
        }
        let ghost v2 = ms.view_in(mem.phys);
        if !ms.push_identical_above(mem, layout.sdata, layout.edata, MapPermission::R().union(MapPermission::W())) {
            return None;
        }
        let ghost v3 = ms.view_in(mem.phys);
        if !ms.push_identical_above(mem, layout.sbss_with_stack, layout.ebss, MapPermission::R().union(MapPermission::W())) {
            return None;
        }
        let ghost v4 = ms.view_in(mem.phys);
        if !ms.push_identical_above(mem, layout.ekernel, MEMORY_END, MapPermission::R().union(MapPermission::W())) {
            return None;
        }
        proof {
            assert(ms.areas_view() =~= layout.kernel_areas());
            lemma_kernel_keys(v0, v1, v2, v3, v4, ms.view_in(mem.phys), a);
            assert(v0.contains_key(vpn_key(trampoline_vpn())));
            assert(v1.contains_key(vpn_key(trampoline_vpn())));
            assert(v2.contains_key(vpn_key(trampoline_vpn())));
            assert(v3.contains_key(vpn_key(trampoline_vpn())));
            assert(v4.contains_key(vpn_key(trampoline_vpn())));
            assert(ms.view_in(mem.phys)[vpn_key(trampoline_vpn())] == trampoline_entry(layout.strampoline));
            assert(ms.wf(*mem));
        }
        Some(ms)
    }
}

/// The keys mapped after the trampoline and five areas were added one after the other.
proof fn lemma_kernel_keys(v0: Map<u64, PageTableEntry>, v1: Map<u64, PageTableEntry>, v2: Map<u64, PageTableEntry>, v3: Map<u64, PageTableEntry>, v4: Map<u64, PageTableEntry>, v5: Map<u64, PageTableEntry>, a: Seq<(int, int, MapType, u8)>)
    requires
        a.len() == 5,
        forall|k: u64| #[trigger] v0.contains_key(k) <==> k == vpn_key(trampoline_vpn()),
        forall|k: u64| #[trigger] v1.contains_key(k) <==> v0.contains_key(k) || key_in(k, a[0].0, a[0].1),
        forall|k: u64| #[trigger] v2.contains_key(k) <==> v1.contains_key(k) || key_in(k, a[1].0, a[1].1),
        forall|k: u64| #[trigger] v3.contains_key(k) <==> v2.contains_key(k) || key_in(k, a[2].0, a[2].1),
        forall|k: u64| #[trigger] v4.contains_key(k) <==> v3.contains_key(k) || key_in(k, a[3].0, a[3].1),
        forall|k: u64| #[trigger] v5.contains_key(k) <==> v4.contains_key(k) || key_in(k, a[4].0, a[4].1),
    ensures
        forall|k: u64| #[trigger] v5.contains_key(k) <==> k == vpn_key(trampoline_vpn())
            || exists|i: int| 0 <= i < 5 && key_in(k, a[i].0, a[i].1),
{
    assert forall|k: u64| #[trigger] v5.contains_key(k) <==> k == vpn_key(trampoline_vpn())
        || exists|i: int| 0 <= i < 5 && key_in(k, a[i].0, a[i].1) by {
        assert(v5.contains_key(k) == (v4.contains_key(k) || key_in(k, a[4].0, a[4].1)));
        assert(v4.contains_key(k) == (v3.contains_key(k) || key_in(k, a[3].0, a[3].1)));
        assert(v3.contains_key(k) == (v2.contains_key(k) || key_in(k, a[2].0, a[2].1)));
        assert(v2.contains_key(k) == (v1.contains_key(k) || key_in(k, a[1].0, a[1].1)));
        assert(v1.contains_key(k) == (v0.contains_key(k) || key_in(k, a[0].0, a[0].1)));
        if exists|i: int| 0 <= i < 5 && key_in(k, a[i].0, a[i].1) {
            let i = choose|i: int| 0 <= i < 5 && key_in(k, a[i].0, a[i].1);
            assert(i == 0 || i == 1 || i == 2 || i == 3 || i == 4);
        }
        if key_in(k, a[0].0, a[0].1) { assert(key_in(k, a[0int].0, a[0int].1)); }
        if key_in(k, a[1].0, a[1].1) { assert(0 <= 1int < 5); }
    }
}

/// Permission bits of a loaded segment with ELF flags `flags`: user, with R, W and X as the
/// flags' read (4), write (2) and execute (1) bits give.
pub open spec fn seg_perm(flags: u32) -> u8 {
    let p0 = 16u8;
    let p1 = if flags & 4 == 4 { p0 | 2u8 } else { p0 };
    let p2 = if flags & 2 == 2 { p1 | 4u8 } else { p1 };
    if flags & 1 == 1 { p2 | 8u8 } else { p2 }
}

/// The area of a LOAD segment is a framed user area, readable exactly when the segment's ELF
/// flags have the read bit (4), writable exactly when they have the write bit (2), and executable
/// exactly when they have the execute bit (1).
pub proof fn lemma_seg_area_permission(seg: (bool, bool, u32, u64, u64, u64, u64))
    ensures
        seg_area(seg).2 == MapType::Framed,
        seg_area(seg).3 & 16 != 0,
        (seg_area(seg).3 & 2 != 0) == (seg.2 & 4 == 4),
        (seg_area(seg).3 & 4 != 0) == (seg.2 & 2 == 2),
        (seg_area(seg).3 & 8 != 0) == (seg.2 & 1 == 1),
        seg_area(seg).3 & 0xe1 == 0,
{
    let f = seg.2;
    let a: bool = f & 4 == 4;
    let b: bool = f & 2 == 2;
    let c: bool = f & 1 == 1;
    let p1: u8 = if a { 16u8 | 2u8 } else { 16u8 };
    let p2: u8 = if b { p1 | 4u8 } else { p1 };
    let p3: u8 = if c { p2 | 8u8 } else { p2 };
    assert(p3 == seg_area(seg).3);
    assert(p3 & 16 != 0 && (p3 & 2 != 0) == a && (p3 & 4 != 0) == b && (p3 & 8 != 0) == c && p3 & 0xe1 == 0) by (bit_vector)
        requires
            p1 == (if a { 16u8 | 2u8 } else { 16u8 }),
            p2 == (if b { p1 | 4u8 } else { p1 }),
            p3 == (if c { p2 | 8u8 } else { p2 });
}

/// The area that a LOAD program header `seg` asks for: the pages from its virtual address to
/// its end in memory, both taken to 39 bits, framed, with the permission of its flags.
pub open spec fn seg_area(seg: (bool, bool, u32, u64, u64, u64, u64)) -> (int, int, MapType, u8) {
    (floor_page(seg.4 as int % 0x80_0000_0000), ceil_page((seg.4 + seg.6) % 0x80_0000_0000), MapType::Framed, seg_perm(seg.2))
}

/// Program header `seg` can be loaded from a file of `len` bytes: its type is known and, for a
/// LOAD segment, its end in memory fits in 64 bits, its area is not reversed, its bytes lie in
/// the file and fit in its area.
pub open spec fn seg_ok(seg: (bool, bool, u32, u64, u64, u64, u64), len: int) -> bool {
    &&& seg.0
    &&& seg.1 ==> {
        &&& seg.4 + seg.6 <= u64::MAX
        &&& seg_area(seg).0 <= seg_area(seg).1
        &&& seg.3 + seg.5 <= len
        &&& MapArea::pages_for(seg.5 as int) <= seg_area(seg).1 - seg_area(seg).0
    }
}

/// Byte `off` of page `pj` of the area loaded from segment `seg` of the file `data`: byte
/// `pj * PAGE_SIZE + off` of the segment in the file, or 0 past the segment's size in the file.
pub open spec fn seg_byte(data: Seq<u8>, seg: (bool, bool, u32, u64, u64, u64, u64), pj: int, off: int) -> u8 {
    if pj * PAGE_SIZE + off < seg.5 { data[seg.3 + pj * PAGE_SIZE + off] } else { 0 }
}

/// The bytes of segment `seg` of the file `data` fill the first pages of area `a`, and the rest
/// of its pages hold zeros: byte `off` of the area's page `pj` is `seg_byte(data, seg, pj, off)`.
pub open spec fn seg_loaded(a: MapArea, phys: PhysMem, data: Seq<u8>, seg: (bool, bool, u32, u64, u64, u64, u64)) -> bool {
    forall|pj: int, off: int| 0 <= pj < a.end() - a.start() && 0 <= off < PAGE_SIZE
        ==> #[trigger] phys.byte(a.frames()[(a.start() + pj) as u64].ppn.0 as int, off) == seg_byte(data, seg, pj, off)
}

/// Each LOAD segment among the first `n` program headers of `data` is loaded, in memory `phys`,
/// into the framed area of `areas` that the loader made for it, the one after the areas of the
/// LOAD segments before it.
#[verifier::opaque]
pub open spec fn segments_loaded(areas: Seq<MapArea>, phys: PhysMem, data: Seq<u8>, n: nat) -> bool {
    forall|i: u16| i < n && (#[trigger] elf_program_header_of(data, i)).1 ==> {
        &&& elf_load_areas(data, i as nat).len() < areas.len()
        &&& areas[elf_load_areas(data, i as nat).len() as int].kind() == MapType::Framed
        &&& seg_loaded(areas[elf_load_areas(data, i as nat).len() as int], phys, data, elf_program_header_of(data, i))
    }
}

/// Adding at most one area, with only fresh frames and table frames changing, keeps the loaded
/// segments.
pub proof fn lemma_loaded_kept(msb: &MemorySet, mb: Memory, ms: &MemorySet, m: Memory, data: Seq<u8>, n: nat)
    requires
        msb.wf(mb),
        pushed(msb, mb, ms, m),
        segments_loaded(msb.area_seq(), mb.phys, data, n),
    ensures
        segments_loaded(ms.area_seq(), m.phys, data, n),
{
    reveal(segments_loaded);
    assert forall|i: u16| i < n && (#[trigger] elf_program_header_of(data, i)).1 implies {
        &&& elf_load_areas(data, i as nat).len() < ms.area_seq().len()
        &&& ms.area_seq()[elf_load_areas(data, i as nat).len() as int].kind() == MapType::Framed
        &&& seg_loaded(ms.area_seq()[elf_load_areas(data, i as nat).len() as int], m.phys, data, elf_program_header_of(data, i))
    } by {
        let j = elf_load_areas(data, i as nat).len() as int;
        let a = msb.area_seq()[j];
        assert(ms.area_seq()[j] == a);
        assert(a.area_ok(&msb.table(), mb));
        let seg = elf_program_header_of(data, i);
        assert forall|pj: int, off: int| 0 <= pj < a.end() - a.start() && 0 <= off < PAGE_SIZE
            implies #[trigger] m.phys.byte(a.frames()[(a.start() + pj) as u64].ppn.0 as int, off) == seg_byte(data, seg, pj, off) by {
            let v = (a.start() + pj) as u64;
            let f = a.frames()[v].ppn.0 as int;
            assert(a.start() <= v < a.end());
            assert(mb.allocated(f));
            assert(mb.phys.has_frame(f));
            assert(!msb.table().frame_set().contains(f));
            assert(!ms.table().frame_set().contains(f));
            assert(mb.phys.byte(f, off) == seg_byte(data, seg, pj, off));
        }
    }
}

/// Changing the bytes of one frame of an area that comes after the areas of the LOAD segments,
/// such as the trap context page, keeps the loaded segments.
pub proof fn lemma_loaded_other_frame(ms: &MemorySet, m0: Memory, m1: Memory, j: int, v: u64, data: Seq<u8>, n: nat)
    requires
        ms.wf(m0),
        0 <= j < ms.area_seq().len(),
        ms.area_seq()[j].kind() == MapType::Framed,
        ms.area_seq()[j].has_page(v),
        j >= elf_load_areas(data, n).len(),
        m0.phys.same_outside(&m1.phys, set![ms.area_seq()[j].frames()[v].ppn.0 as int]),
        segments_loaded(ms.area_seq(), m0.phys, data, n),
    ensures
        segments_loaded(ms.area_seq(), m1.phys, data, n),
{
    reveal(segments_loaded);
    let areas = ms.area_seq();
    let f = areas[j].frames()[v].ppn.0 as int;
    assert forall|i: u16| i < n && (#[trigger] elf_program_header_of(data, i)).1 implies
        seg_loaded(areas[elf_load_areas(data, i as nat).len() as int], m1.phys, data, elf_program_header_of(data, i)) by {
        let k = elf_load_areas(data, i as nat).len() as int;
        lemma_load_prefix(data, (i + 1) as nat, n);
        assert(elf_load_areas(data, (i + 1) as nat).len() == k + 1);
        assert(k < j);
        let a = areas[k];
        let seg = elf_program_header_of(data, i);
        assert(a.area_ok(&ms.table(), m0));
        assert forall|pj: int, off: int| 0 <= pj < a.end() - a.start() && 0 <= off < PAGE_SIZE
            implies #[trigger] m1.phys.byte(a.frames()[(a.start() + pj) as u64].ppn.0 as int, off) == seg_byte(data, seg, pj, off) by {
            let w = (a.start() + pj) as u64;
            let g = a.frames()[w].ppn.0 as int;
            assert(a.has_page(w));
            assert(m0.phys.has_frame(g));
            assert(areas[k].frames()[w].ppn != areas[j].frames()[v].ppn);
            assert(m0.phys.byte(g, off) == seg_byte(data, seg, pj, off));
        }
    }
}

/// The areas of the LOAD segments among the first `n` program headers of `data`, in order.
pub open spec fn elf_load_areas(data: Seq<u8>, n: nat) -> Seq<(int, int, MapType, u8)>
    decreases n,
{
    if n == 0 {
        Seq::empty()
    } else {
        let prev = elf_load_areas(data, (n - 1) as nat);
        let seg = elf_program_header_of(data, (n - 1) as u16);
        if seg.1 { prev.push(seg_area(seg)) } else { prev }
    }
}

/// End page of the area of the last LOAD segment among the first `n` program headers; 0 when
/// there is none.
pub open spec fn elf_last_end(data: Seq<u8>, n: nat) -> int
    decreases n,
{
    if n == 0 {
        0
    } else {
        let seg = elf_program_header_of(data, (n - 1) as u16);
        if seg.1 { seg_area(seg).1 } else { elf_last_end(data, (n - 1) as nat) }
    }
}

/// The first `n` program headers of `data`, whose header reads `h`, lie in the file and can be
/// loaded.
pub open spec fn elf_segments_ok(data: Seq<u8>, h: (u8, u16, u64, u64, u16), n: nat) -> bool {
    forall|i: u16| i < n ==> #[trigger] ph_entry_ok(h, i as int, data.len() as int) && seg_ok(elf_program_header_of(data, i), data.len() as int)
}

/// An address of 39 bits as a 64-bit value, sign-extended from bit 38.
pub open spec fn sign_extend(va: int) -> int {
    if va >= 0x40_0000_0000 { (va as u64 | 0xffff_ff80_0000_0000u64) as int } else { va }
}

/// First address of the user stack, one guard page above the end of the last loaded area.
pub open spec fn stack_bottom(last_end: int) -> int {
    sign_extend(last_end * PAGE_SIZE) + PAGE_SIZE
}

/// Address just above the user stack, where the program break starts.
pub open spec fn stack_top(last_end: int) -> int {
    stack_bottom(last_end) + USER_STACK_SIZE
}

/// The stack addresses fit in 64 bits and its area is not reversed.
pub open spec fn stack_ok(last_end: int) -> bool {
    &&& stack_top(last_end) <= u64::MAX
    &&& floor_page(stack_bottom(last_end) % 0x80_0000_0000) <= ceil_page(stack_top(last_end) % 0x80_0000_0000)
}

/// The user stack area: readable, writable, user.
pub open spec fn stack_area(last_end: int) -> (int, int, MapType, u8) {
    (floor_page(stack_bottom(last_end) % 0x80_0000_0000), ceil_page(stack_top(last_end) % 0x80_0000_0000), MapType::Framed, 22)
}

/// The empty area at the stack top that the program break grows.
pub open spec fn brk_area(last_end: int) -> (int, int, MapType, u8) {
    (floor_page(stack_top(last_end) % 0x80_0000_0000), ceil_page(stack_top(last_end) % 0x80_0000_0000), MapType::Framed, 22)
}

/// The area of the trap context, the page below the trampoline: readable, writable.
pub open spec fn trap_area() -> (int, int, MapType, u8) {
    (0x7ff_fffe, 0x7ff_ffff, MapType::Framed, 6)
}

/// No two of the areas share a page.
pub open spec fn areas_disjoint(areas: Seq<(int, int, MapType, u8)>) -> bool {
    forall|i: int, j: int| 0 <= i < j < areas.len() ==> !(#[trigger] areas[i].0 < areas[j].1 && #[trigger] areas[j].0 < areas[i].1)
}

/// The area is empty or ends below the trampoline page, and lies below 2^27.
pub open spec fn below_trampoline(a: (int, int, MapType, u8)) -> bool {
    &&& 0 <= a.0 <= a.1 <= 0x800_0000
    &&& (a.0 == a.1 || a.1 <= trampoline_vpn())
}

/// Number of program headers of the ELF file `data`.
pub open spec fn elf_ph_count(data: Seq<u8>) -> nat {
    let h = elf_header_of(data)->0;
    h.1 as nat
}

/// Entry point of the ELF file `data`.
pub open spec fn elf_entry(data: Seq<u8>) -> u64 {
    let h = elf_header_of(data)->0;
    h.2
}

/// The user address space of the ELF file `data`: its LOAD areas, then the user stack, the
/// program break area and the trap context.
pub open spec fn elf_areas(data: Seq<u8>) -> Seq<(int, int, MapType, u8)> {
    let h = elf_header_of(data)->0;
    let last = elf_last_end(data, h.1 as nat);
    elf_load_areas(data, h.1 as nat) + seq![stack_area(last), brk_area(last), trap_area()]
}

/// In the layout that `from_elf` gives the address space of `data` (`elf_areas`), the area of
/// each LOAD program header `i` (the one after the areas of the LOAD headers before it) is framed,
/// user, readable exactly when the header's flags have the read bit (4), writable exactly when
/// they have the write bit (2), and executable exactly when they have the execute bit (1).
pub proof fn lemma_load_area_permission(data: Seq<u8>, i: u16)
    requires
        elf_header_of(data) is Some,
        (i as int) < elf_header_of(data).unwrap().1,
        elf_program_header_of(data, i).1,
    ensures
        elf_load_areas(data, i as nat).len() < elf_areas(data).len(),
        ({
            let a = elf_areas(data)[elf_load_areas(data, i as nat).len() as int];
            let f = elf_program_header_of(data, i).2;
            &&& a.2 == MapType::Framed
            &&& a.3 & 16 != 0
            &&& (a.3 & 2 != 0) == (f & 4 == 4)
            &&& (a.3 & 4 != 0) == (f & 2 == 2)
            &&& (a.3 & 8 != 0) == (f & 1 == 1)
        }),
{
    let n = elf_header_of(data).unwrap().1 as nat;
    let k = elf_load_areas(data, i as nat).len() as int;
    let seg = elf_program_header_of(data, i);
    assert(elf_load_areas(data, (i + 1) as nat) == elf_load_areas(data, i as nat).push(seg_area(seg)));
    lemma_load_prefix(data, (i + 1) as nat, n);
    assert(elf_load_areas(data, n)[k] == seg_area(seg));
    assert(elf_areas(data)[k] == elf_load_areas(data, n)[k]);
    lemma_seg_area_permission(seg);
}

/// Number of pages of the areas.
pub open spec fn pages_of(areas: Seq<(int, int, MapType, u8)>) -> int
    decreases areas.len(),
{
    if areas.len() == 0 { 0 } else { pages_of(areas.drop_last()) + (areas.last().1 - areas.last().0) }
}

/// `data` is an ELF file that the loader accepts: a header `xmas_elf` accepts, program headers
/// inside the file that can be loaded, a stack that fits, and areas that share no page and
/// leave the trampoline page alone.
pub open spec fn elf_loadable(data: Seq<u8>) -> bool {
    let h = elf_header_of(data)->0;
    &&& header_fits(data)
    &&& elf_header_of(data) is Some
    &&& elf_segments_ok(data, h, h.1 as nat)
    &&& stack_ok(elf_last_end(data, h.1 as nat))
    &&& areas_disjoint(elf_areas(data))
    &&& forall|i: int| 0 <= i < elf_areas(data).len() ==> below_trampoline(#[trigger] elf_areas(data)[i])
}

impl MemorySet {
    /// A user address space in the making: the trampoline is mapped, areas lie below it and
    /// share no page, and the table maps exactly their pages and the trampoline.
    pub open spec fn user_space_ok(&self, mem: Memory) -> bool {
        &&& self.wf(mem)
        &&& space_ok(self.areas_view(), self.view_in(mem.phys))
    }

    /// Maps and adds the fresh area `area`, copying `data` into its first pages when given, if it
    /// shares no page with the areas and leaves the trampoline page alone: `Some(true)`; when it
    /// does not, `None`, with nothing changed; `Some(false)` when a frame cannot be had.
    fn push_disjoint(&mut self, mem: &mut Memory, area: MapArea, data: Option<&[u8]>) -> (r: Option<bool>)
        requires
            old(self).user_space_ok(*old(mem)),
            old(mem).wf(),
            area.range_ok(),
            area.kind() == MapType::Framed,
            area.end() <= 0x800_0000,
            area.frames() == Map::<u64, FrameTracker>::empty(),
            data matches Some(d) ==> area.kind() == MapType::Framed && MapArea::pages_for(d@.len() as int) <= area.end() - area.start(),
        ensures
            final(mem).wf(),
            forall|q: int| #[trigger] old(mem).allocated(q) ==> final(mem).allocated(q),
            r is None <==> (!below_trampoline(area_summary(area)) || exists|i: int| 0 <= i < old(self).areas_view().len()
                && #[trigger] old(self).areas_view()[i].0 < area.end() && old(self).areas_view()[i].1 > area.start()),
            r is None ==> *final(self) == *old(self) && *final(mem) == *old(mem),
            r == Some(true) ==> final(self).areas_view() == old(self).areas_view().push(area_summary(area))
                && final(self).user_space_ok(*final(mem))
                && final(mem).allocator.free_count() >= old(mem).allocator.free_count() - 3 * (area.end() - area.start()),
            r == Some(true) && data is Some ==> forall|pj: int, off: int|
                0 <= pj && 0 <= off < PAGE_SIZE && pj * PAGE_SIZE + off < data->0@.len() ==> #[trigger] final(mem).phys.byte(
                    final(self).area_seq().last().frames()[(area.start() + pj) as u64].ppn.0 as int,
                    off,
                ) == data->0@[pj * PAGE_SIZE + off],
            r == Some(true) && data is Some ==> forall|pj: int, off: int|
                0 <= pj < area.end() - area.start() && 0 <= off < PAGE_SIZE && pj * PAGE_SIZE + off >= data->0@.len() ==> #[trigger] final(mem).phys.byte(
                    final(self).area_seq().last().frames()[(area.start() + pj) as u64].ppn.0 as int,
                    off,
                ) == 0,
            r == Some(false) ==> old(mem).allocator.free_count() < 3 * (area.end() - area.start())
                && final(self).areas_view() == old(self).areas_view() && final(self).user_space_ok(*final(mem)),
            view_extends(old(self).view_in(old(mem).phys), final(self).view_in(final(mem).phys)),
            old(mem).phys.same_outside(&final(mem).phys, final(self).table().frame_set() + unallocated(*old(mem))),
            old(self).table().frame_set().subset_of(final(self).table().frame_set()),
            forall|q: int| #[trigger] final(self).table().frame_set().contains(q) && !old(self).table().frame_set().contains(q) ==> !old(mem).allocated(q),
            r == Some(true) ==> final(self).area_seq() == old(self).area_seq().push(final(self).area_seq().last())
                && area_summary(final(self).area_seq().last()) == area_summary(area),
            r == Some(true) && area.kind() == MapType::Framed ==> forall|v: u64| area.has_page(v) ==> !old(mem).allocated(#[trigger] final(self).area_seq().last().frames()[v].ppn.0 as int),
            pushed(old(self), *old(mem), final(self), *final(mem)),
    {
        let conflict = area.end_vpn().0 > 0x7ff_ffff && area.start_vpn().0 < area.end_vpn().0;
        if conflict || self.is_overlap(area.start_vpn(), area.end_vpn()) {
            proof {
                lemma_same_outside_refl(&mem.phys, self.table().frame_set() + unallocated(*mem));
            }
            return None;
        }
        let ghost areas0 = self.areas_view();
        let ghost view0 = self.view_in(mem.phys);
        let ghost mem0 = *mem;
        proof {
            lemma_small_key(trampoline_vpn());
            assert forall|v: u64| area.has_page(v) implies !self.view_in(mem.phys).contains_key(#[trigger] vpn_key(v)) by {
                lemma_small_key(v);
                if self.view_in(mem.phys).contains_key(v) && v != trampoline_vpn() {
                    let i = choose|i: int| 0 <= i < areas0.len() && key_in(v, areas0[i].0, areas0[i].1);
                    let w = choose|w: u64| areas0[i].0 <= w < areas0[i].1 && #[trigger] vpn_key(w) == v;
                    assert(below_trampoline(areas0[i]));
                    lemma_small_key(w);
                    assert(areas0[i].0 < area.end() && areas0[i].1 > area.start());
                }
            }
        }
        let ghost areas_b = self.area_seq();
        let ok = self.push(mem, area, data);
        proof {
            if ok {
                let last = self.area_seq().last();
                assert(self.area_seq() == areas_b.push(last));
                assert(self.areas_view() =~= areas0.push(area_summary(area)));
                assert(last.area_ok(&self.table(), *mem)) by {
                    assert(self.area_seq()[self.area_seq().len() - 1] == last);
                }
                let areas1 = self.areas_view();
                let view1 = self.view_in(mem.phys);
                assert forall|k: u64| #[trigger] view1.contains_key(k) <==> k == vpn_key(trampoline_vpn())
                    || exists|i: int| 0 <= i < areas1.len() && key_in(k, areas1[i].0, areas1[i].1) by {
                    if key_in(k, area.start(), area.end()) {
                        let w = choose|w: u64| area.start() <= w < area.end() && #[trigger] vpn_key(w) == k;
                        assert(last.has_page(w));
                        assert(areas1[areas0.len() as int] == area_summary(area));
                    }
                    if exists|i: int| 0 <= i < areas1.len() && key_in(k, areas1[i].0, areas1[i].1) {
                        let i = choose|i: int| 0 <= i < areas1.len() && key_in(k, areas1[i].0, areas1[i].1);
                        if i < areas0.len() {
                            assert(areas1[i] == areas0[i]);
                        }
                    }
                    if view0.contains_key(k) && k != vpn_key(trampoline_vpn()) {
                        let i = choose|i: int| 0 <= i < areas0.len() && key_in(k, areas0[i].0, areas0[i].1);
                        assert(areas1[i] == areas0[i]);
                    }
                }
                assert forall|i: int, j: int| 0 <= i < j < areas1.len() implies !(#[trigger] areas1[i].0 < areas1[j].1 && #[trigger] areas1[j].0 < areas1[i].1) by {
                    if j < areas0.len() {
                        assert(areas1[i] == areas0[i] && areas1[j] == areas0[j]);
                    } else {
                        assert(areas1[i] == areas0[i]);
                    }
                }
                assert forall|i: int| 0 <= i < areas1.len() implies below_trampoline(#[trigger] areas1[i]) by {
                    if i < areas0.len() {
                        assert(areas1[i] == areas0[i]);
                    }
                }
            } else {
                assert(self.areas_view() =~= areas0);
            }
        }
        Some(ok)
    }
}

impl MemorySet {
    /// Loads the program header `seg` read from the ELF file `elf_data`: nothing to do for a
    /// segment that is not LOAD (`Some(true)`); a LOAD segment gets a framed user area with the
    /// permission of its flags, and its bytes are copied to the area's first pages (`Some(true)`),
    /// or `Some(false)` when a frame cannot be had. `None`, with nothing changed, when the type is
    /// unknown, the segment cannot be loaded from the file, or its area would share a page with
    /// another or cover the trampoline.
    pub fn load_segment(&mut self, mem: &mut Memory, elf_data: &[u8], seg: (bool, bool, u32, u64, u64, u64, u64)) -> (r: Option<bool>)
        requires
            old(self).user_space_ok(*old(mem)),
            old(mem).wf(),
        ensures
            final(mem).wf(),
            forall|q: int| #[trigger] old(mem).allocated(q) ==> final(mem).allocated(q),
            view_extends(old(self).view_in(old(mem).phys), final(self).view_in(final(mem).phys)),
            r is None <==> !seg_ok(seg, elf_data@.len() as int) || (seg.1 && (!below_trampoline(seg_area(seg))
                || exists|i: int| 0 <= i < old(self).areas_view().len() && #[trigger] old(self).areas_view()[i].0 < seg_area(seg).1
                    && old(self).areas_view()[i].1 > seg_area(seg).0)),
            r is None || !seg.1 ==> *final(self) == *old(self) && *final(mem) == *old(mem),
            r == Some(true) && seg.1 ==> final(self).areas_view() == old(self).areas_view().push(seg_area(seg))
                && final(self).user_space_ok(*final(mem))
                && final(mem).allocator.free_count() >= old(mem).allocator.free_count() - 3 * (seg_area(seg).1 - seg_area(seg).0),
            r == Some(true) && seg.1 ==> forall|pj: int, off: int|
                0 <= pj && 0 <= off < PAGE_SIZE && pj * PAGE_SIZE + off < seg.5 ==> #[trigger] final(mem).phys.byte(
                    final(self).area_seq().last().frames()[(seg_area(seg).0 + pj) as u64].ppn.0 as int,
                    off,
                ) == elf_data@[seg.3 + pj * PAGE_SIZE + off],
            r == Some(true) && seg.1 ==> forall|pj: int, off: int|
                0 <= pj < seg_area(seg).1 - seg_area(seg).0 && 0 <= off < PAGE_SIZE && pj * PAGE_SIZE + off >= seg.5 ==> #[trigger] final(mem).phys.byte(
                    final(self).area_seq().last().frames()[(seg_area(seg).0 + pj) as u64].ppn.0 as int,
                    off,
                ) == 0,
            r == Some(false) ==> seg.1 && old(mem).allocator.free_count() < 3 * (seg_area(seg).1 - seg_area(seg).0)
                && final(self).areas_view() == old(self).areas_view() && final(self).user_space_ok(*final(mem)),
            pushed(old(self), *old(mem), final(self), *final(mem)),
    {
        let (known, load, flags, offset, vaddr, file_size, mem_size) = seg;
        let len = elf_data.len();
        proof {
            assert(len as int <= u64::MAX);
        }
        if !known {
            return None;
        }
        if !load {
            return Some(true);
        }
        let end_addr = match vaddr.checked_add(mem_size) {
            None => return None,
            Some(e) => e,
        };
        let start_va = VirtAddr::from_u64(vaddr);
        let end_va = VirtAddr::from_u64(end_addr);
        if start_va.floor().0 > end_va.ceil().0 {
            return None;
        }
        let data_end = match offset.checked_add(file_size) {
            None => return None,
            Some(e) => e,
        };
        if data_end > elf_data.len() as u64 {
            return None;
        }
        let pages: u64 = if file_size <= PAGE_SIZE { 1 } else { (file_size - 1) / PAGE_SIZE + 1 };
        if pages > end_va.ceil().0 - start_va.floor().0 {
            return None;
        }
        let mut perm = MapPermission::U();
        if flags & 4 == 4 {
            perm = perm.union(MapPermission::R());
        }
        if flags & 2 == 2 {
            perm = perm.union(MapPermission::W());
        }
        if flags & 1 == 1 {
            perm = perm.union(MapPermission::X());
        }
        let area = MapArea::new(start_va, end_va, MapType::Framed, perm);
        proof {
            assert(MapArea::pages_for(file_size as int) == pages);
            assert(area_summary(area) == seg_area(seg));
            assert(ceil_page(end_va.0 as int) <= 0x800_0000);
        }
        let bytes = vstd::slice::slice_subrange(elf_data, offset as usize, data_end as usize);
        let r = self.push_disjoint(mem, area, Some(bytes));
        proof {
            if r == Some(true) {
                assert forall|pj: int, off: int|
                    0 <= pj && 0 <= off < PAGE_SIZE && pj * PAGE_SIZE + off < seg.5 implies #[trigger] mem.phys.byte(
                        self.area_seq().last().frames()[(seg_area(seg).0 + pj) as u64].ppn.0 as int,
                        off,
                    ) == elf_data@[seg.3 + pj * PAGE_SIZE + off] by {
                    assert(bytes@[pj * PAGE_SIZE + off] == elf_data@[seg.3 + pj * PAGE_SIZE + off]);
                }
            }
        }
        r
    }
}

/// Whether program header `i` of a file of `len` bytes whose header reads `h` lies in the file.
fn ph_entry_fits(h: (u8, u16, u64, u64, u16), i: u16, len: usize) -> (r: bool)
    ensures
        r == ph_entry_ok(h, i as int, len as int),
{
    let (class, count, _entry, offset, size) = h;
    proof {
        reveal(ph_entry_ok);
    }
    if i >= count || offset == 0 || size == 0 {
        return false;
    }
    proof {
        assert((i as u64 + 1) * (size as u64) <= 0x1_0000 * 0xffff) by (nonlinear_arith)
            requires i < 0x1_0000, size <= 0xffff;
    }
    let need: u64 = (i as u64 + 1) * (size as u64);
    let min_size: u16 = if class == 1 { 32 } else { 56 };
    let align: u64 = if class == 1 { 4 } else { 8 };
    need <= len as u64 && offset <= len as u64 - need && size >= min_size && offset % align == 0 && size as u64 % align == 0
}

/// Loading program header `i` with `load_segment`, which succeeded, loads the first `i + 1`.
proof fn lemma_loaded_load_step(msb: &MemorySet, mb: Memory, ms: &MemorySet, m: Memory, data: Seq<u8>, i: u16, seg: (bool, bool, u32, u64, u64, u64, u64))
    requires
        msb.wf(mb),
        seg == elf_program_header_of(data, i),
        segments_loaded(msb.area_seq(), mb.phys, data, i as nat),
        msb.areas_view() == elf_load_areas(data, i as nat),
        pushed(msb, mb, ms, m),
        !seg.1 ==> *ms == *msb && m == mb,
        seg.1 ==> ms.areas_view() == msb.areas_view().push(seg_area(seg)),
        seg.1 ==> forall|pj: int, off: int|
            0 <= pj && 0 <= off < PAGE_SIZE && pj * PAGE_SIZE + off < seg.5 ==> #[trigger] m.phys.byte(
                ms.area_seq().last().frames()[(seg_area(seg).0 + pj) as u64].ppn.0 as int,
                off,
            ) == data[seg.3 + pj * PAGE_SIZE + off],
        seg.1 ==> forall|pj: int, off: int|
            0 <= pj < seg_area(seg).1 - seg_area(seg).0 && 0 <= off < PAGE_SIZE && pj * PAGE_SIZE + off >= seg.5 ==> #[trigger] m.phys.byte(
                ms.area_seq().last().frames()[(seg_area(seg).0 + pj) as u64].ppn.0 as int,
                off,
            ) == 0,
    ensures
        segments_loaded(ms.area_seq(), m.phys, data, (i + 1) as nat),
{
    lemma_loaded_kept(msb, mb, ms, m, data, i as nat);
    reveal(segments_loaded);
    if seg.1 {
        let j = msb.area_seq().len() as int;
        assert(msb.areas_view().len() == j);
        assert(ms.areas_view().len() == j + 1);
        assert(ms.area_seq() == msb.area_seq().push(ms.area_seq().last()));
        let a = ms.area_seq()[j];
        assert(a == ms.area_seq().last());
        assert(area_summary(a) == ms.areas_view()[j]);
        assert(area_summary(a) == seg_area(seg));
        assert(elf_load_areas(data, i as nat).len() == j);
        assert forall|pj: int, off: int| 0 <= pj < a.end() - a.start() && 0 <= off < PAGE_SIZE
            implies #[trigger] m.phys.byte(a.frames()[(a.start() + pj) as u64].ppn.0 as int, off) == seg_byte(data, seg, pj, off) by {
            if pj * PAGE_SIZE + off < seg.5 {
                assert(m.phys.byte(ms.area_seq().last().frames()[(seg_area(seg).0 + pj) as u64].ppn.0 as int, off) == data[seg.3 + pj * PAGE_SIZE + off]);
            } else {
                assert(m.phys.byte(ms.area_seq().last().frames()[(seg_area(seg).0 + pj) as u64].ppn.0 as int, off) == 0);
            }
        }
        assert(seg_loaded(a, m.phys, data, seg));
    }
    assert forall|k: u16| k < i + 1 && (#[trigger] elf_program_header_of(data, k)).1 implies {
        &&& elf_load_areas(data, k as nat).len() < ms.area_seq().len()
        &&& ms.area_seq()[elf_load_areas(data, k as nat).len() as int].kind() == MapType::Framed
        &&& seg_loaded(ms.area_seq()[elf_load_areas(data, k as nat).len() as int], m.phys, data, elf_program_header_of(data, k))
    } by {
        if k == i {
            let j = msb.area_seq().len() as int;
            assert(msb.areas_view().len() == j);
            assert(elf_load_areas(data, k as nat).len() == j);
            assert(ms.areas_view().len() == j + 1);
        }
    }
}

/// One more program header that lies in the file and can be loaded.
proof fn lemma_segments_ok_extend(data: Seq<u8>, h: (u8, u16, u64, u64, u16), n: nat)
    requires
        elf_segments_ok(data, h, n),
        n < 0x1_0000,
        ph_entry_ok(h, n as int, data.len() as int),
        seg_ok(elf_program_header_of(data, n as u16), data.len() as int),
    ensures
        elf_segments_ok(data, h, n + 1),
{
    assert forall|j: u16| j < n + 1 implies #[trigger] ph_entry_ok(h, j as int, data.len() as int) && seg_ok(elf_program_header_of(data, j), data.len() as int) by {
        if j < n {
            assert(ph_entry_ok(h, j as int, data.len() as int));
        } else {
            assert(j == n as u16);
            assert(j as int == n);
        }
    }
}

/// The LOAD areas of the first `m` program headers come first among those of the first `n`.
pub proof fn lemma_load_prefix(data: Seq<u8>, m: nat, n: nat)
    requires
        m <= n,
    ensures
        elf_load_areas(data, m).len() <= elf_load_areas(data, n).len(),
        forall|j: int| 0 <= j < elf_load_areas(data, m).len() ==> #[trigger] elf_load_areas(data, n)[j] == elf_load_areas(data, m)[j],
    decreases n,
{
    if m < n {
        lemma_load_prefix(data, m, (n - 1) as nat);
    }
}

/// The pages of the first `k` areas are at most those of all, when no area is reversed.
proof fn lemma_pages_prefix(s: Seq<(int, int, MapType, u8)>, k: int)
    requires
        0 <= k <= s.len(),
        forall|j: int| 0 <= j < s.len() ==> (#[trigger] s[j]).0 <= s[j].1,
    ensures
        pages_of(s.take(k)) <= pages_of(s),
    decreases s.len(),
{
    if k == s.len() {
        assert(s.take(k) =~= s);
    } else {
        let d = s.drop_last();
        assert forall|j: int| 0 <= j < d.len() implies (#[trigger] d[j]).0 <= d[j].1 by {
            assert(d[j] == s[j]);
        }
        lemma_pages_prefix(d, k);
        assert(d.take(k) =~= s.take(k));
        assert(s.last() == s[s.len() - 1]);
    }
}

/// A failure of the loader after the areas `prev`, while adding `x`, leaves a loadable file with
/// fewer free frames than the space needs, when `prev` with `x` begins the areas of the file.
proof fn lemma_short_of_frames(data: Seq<u8>, prev: Seq<(int, int, MapType, u8)>, x: (int, int, MapType, u8), free0: int, free: int)
    requires
        prev.len() < elf_areas(data).len(),
        forall|j: int| 0 <= j < prev.len() ==> #[trigger] elf_areas(data)[j] == prev[j],
        elf_areas(data)[prev.len() as int] == x,
        free >= free0 - 3 - 3 * pages_of(prev),
        free < 3 * (x.1 - x.0),
    ensures
        elf_loadable(data) ==> free0 < 3 + 3 * pages_of(elf_areas(data)),
{
    if elf_loadable(data) {
        let all = elf_areas(data);
        let k = prev.len() + 1int;
        assert(all.take(k) =~= prev.push(x));
        assert(prev.push(x).drop_last() =~= prev);
        assert(pages_of(prev.push(x)) == pages_of(prev) + (x.1 - x.0));
        assert forall|j: int| 0 <= j < all.len() implies (#[trigger] all[j]).0 <= all[j].1 by {
            assert(below_trampoline(all[j]));
        }
        lemma_pages_prefix(all, k);
    }
}

impl MemorySet {
    /// The user address space of the program in the ELF file `elf_data`: the trampoline, mapped
    /// to `strampoline`; a framed user area per LOAD segment, holding the segment's bytes; the
    /// user stack one guard page above the last of them; the empty area where the program break
    /// grows; and the trap context page. Returns it with the stack top and the entry point.
    /// The file's header must be one that `xmas_elf` accepts (`header_accepted`). `None` when the
    /// rest of the file is not one the loader accepts, or when frames run out, which happens only
    /// with fewer than 3 frames free per page of the areas, plus 3.
    #[verifier::rlimit(40)]
    pub fn from_elf(mem: &mut Memory, elf_data: &[u8], strampoline: PhysAddr) -> (r: Option<(MemorySet, u64, u64)>)
        requires
            old(mem).wf(),
            header_accepted(elf_data@),
            strampoline.0 % PAGE_SIZE == 0,
        ensures
            final(mem).wf(),
            forall|q: int| #[trigger] old(mem).allocated(q) ==> final(mem).allocated(q),
            old(mem).phys.same_outside(&final(mem).phys, unallocated(*old(mem))),
            r matches Some((ms, sp, entry)) ==> fresh_since(&ms, *old(mem), *final(mem)),
            r is Some ==> elf_loadable(elf_data@),
            elf_loadable(elf_data@) && old(mem).allocator.free_count() >= 3 + 3 * pages_of(elf_areas(elf_data@)) ==> r is Some,
            r is Some ==> final(mem).allocator.free_count() >= old(mem).allocator.free_count() - 3 - 3 * pages_of(elf_areas(elf_data@)),
            r matches Some((ms, sp, entry)) ==> {
                &&& ms.user_space_ok(*final(mem))
                &&& ms.areas_view() == elf_areas(elf_data@)
                &&& sp == stack_top(elf_last_end(elf_data@, elf_ph_count(elf_data@)))
                &&& entry == elf_entry(elf_data@)
                &&& ms.view_in(final(mem).phys)[vpn_key(trampoline_vpn())] == trampoline_entry(strampoline.0)
                &&& segments_loaded(ms.area_seq(), final(mem).phys, elf_data@, elf_ph_count(elf_data@))
            },
    {
        let ghost free0 = mem.allocator.free_count();
        let ghost mem0 = *mem;
        let ghost data = elf_data@;
        proof {
            if elf_loadable(data) {
                let all = elf_areas(data);
                assert forall|j: int| 0 <= j < all.len() implies (#[trigger] all[j]).0 <= all[j].1 by {
                    assert(below_trampoline(all[j]));
                }
                lemma_pages_prefix(all, 0);
                assert(all.take(0) =~= Seq::<(int, int, MapType, u8)>::empty());
            }
        }
        let mut ms = match MemorySet::new_bare(mem) {
            None => {
                proof {
                    lemma_same_outside_refl(&mem.phys, unallocated(mem0));
                }
                return None;
            },
            Some(ms) => ms,
        };
        proof {
            lemma_small_key(trampoline_vpn());
        }
        let ghost mem1 = *mem;
        let tramp_ok = ms.map_trampoline(mem, strampoline);
        proof {
            lemma_fresh_base(&ms, mem0, mem1, *mem);
        }
        if !tramp_ok {
            return None;
        }
        let ghost te = trampoline_entry(strampoline.0);
        proof {
            let view = ms.view_in(mem.phys);
            assert(ms.areas_view() =~= Seq::<(int, int, MapType, u8)>::empty());
            assert forall|k: u64| #[trigger] view.contains_key(k) <==> k == vpn_key(trampoline_vpn())
                || exists|i: int| 0 <= i < ms.areas_view().len() && key_in(k, ms.areas_view()[i].0, ms.areas_view()[i].1) by {}
            assert(pages_of(ms.areas_view()) == 0);
        }
        let len = elf_data.len();
        if len < 16 {
            return None;
        }
        let class_byte = elf_data[4];
        if (class_byte == 1 && len < 52) || (class_byte == 2 && len < 64) {
            return None;
        }
        let h = match elf_header(elf_data) {
            None => return None,
            Some(h) => h,
        };
        let (class, ph_count, entry, ph_offset, ph_entry_size) = h;
        let last_end = match load_segments(&mut ms, mem, elf_data, h, Ghost(mem0)) {
            None => return None,
            Some(e) => e,
        };
        let ghost n = ph_count as nat;
        let ghost loads = elf_load_areas(data, n);
        let ghost last = elf_last_end(data, n);
        proof {
            assert(elf_areas(data) == loads + seq![stack_area(last), brk_area(last), trap_area()]);
        }
        let max_end_va = last_end.to_va();
        let bottom = match max_end_va.to_u64().checked_add(PAGE_SIZE) {
            None => return None,
            Some(b) => b,
        };
        let top = match bottom.checked_add(USER_STACK_SIZE) {
            None => return None,
            Some(t) => t,
        };
        proof {
            assert(bottom == stack_bottom(last));
            assert(top == stack_top(last));
        }
        let bottom_va = VirtAddr::from_u64(bottom);
        let top_va = VirtAddr::from_u64(top);
        if bottom_va.floor().0 > top_va.ceil().0 {
            return None;
        }
        let rwu = MapPermission::R().union(MapPermission::W()).union(MapPermission::U());
        proof {
            assert((2u8 | 4u8) | 16u8 == 22u8 && 2u8 | 4u8 == 6u8) by (bit_vector);
        }
        let stack = MapArea::new(bottom_va, top_va, MapType::Framed, rwu);
        proof {
            assert(area_summary(stack) == stack_area(last));
            assert(ceil_page(top_va.0 as int) <= 0x800_0000);
        }
        let ghost free_b = mem.allocator.free_count();
        let ghost ms_stack = ms;
        let ghost mem_stack = *mem;
        let res_stack = ms.push_disjoint(mem, stack, None);
        proof {
            lemma_fresh_step(&ms_stack, mem_stack, &ms, *mem, mem0);
            lemma_loaded_kept(&ms_stack, mem_stack, &ms, *mem, data, n);
        }
        match res_stack {
            Some(true) => {},
            None => {
                proof {
                    let all = elf_areas(data);
                    if exists|j: int| 0 <= j < loads.len() && #[trigger] loads[j].0 < stack_area(last).1 && loads[j].1 > stack_area(last).0 {
                        let j = choose|j: int| 0 <= j < loads.len() && #[trigger] loads[j].0 < stack_area(last).1 && loads[j].1 > stack_area(last).0;
                        assert(all[j] == loads[j]);
                        assert(all[loads.len() as int] == stack_area(last));
                    }
                    assert(all[loads.len() as int] == stack_area(last));
                }
                return None;
            },
            Some(false) => {
                proof {
                    lemma_short_of_frames(data, loads, stack_area(last), free0, free_b);
                }
                return None;
            },
        }
        let ghost s1 = loads.push(stack_area(last));
        let brk = MapArea::new(top_va, top_va, MapType::Framed, rwu);
        proof {
            assert(area_summary(brk) == brk_area(last));
            assert(pages_of(s1) == pages_of(loads) + (stack_area(last).1 - stack_area(last).0)) by {
                assert(s1.drop_last() =~= loads);
            }
        }
        let ghost free_c = mem.allocator.free_count();
        let ghost ms_brk = ms;
        let ghost mem_brk = *mem;
        let res_brk = ms.push_disjoint(mem, brk, None);
        proof {
            lemma_fresh_step(&ms_brk, mem_brk, &ms, *mem, mem0);
            lemma_loaded_kept(&ms_brk, mem_brk, &ms, *mem, data, n);
        }
        match res_brk {
            Some(true) => {},
            None => {
                proof {
                    let all = elf_areas(data);
                    assert(all[s1.len() as int] == brk_area(last));
                    assert forall|j: int| 0 <= j < s1.len() implies #[trigger] all[j] == s1[j] by {}
                    if exists|j: int| 0 <= j < s1.len() && #[trigger] s1[j].0 < brk_area(last).1 && s1[j].1 > brk_area(last).0 {
                        let j = choose|j: int| 0 <= j < s1.len() && #[trigger] s1[j].0 < brk_area(last).1 && s1[j].1 > brk_area(last).0;
                        assert(all[j] == s1[j]);
                    }
                }
                return None;
            },
            Some(false) => {
                proof {
                    assert forall|j: int| 0 <= j < s1.len() implies #[trigger] elf_areas(data)[j] == s1[j] by {}
                    lemma_short_of_frames(data, s1, brk_area(last), free0, free_c);
                }
                return None;
            },
        }
        let ghost s2 = s1.push(brk_area(last));
        let trap = MapArea::new(VirtAddr::from_u64(TRAP_CONTEXT_BASE), VirtAddr::from_u64(TRAMPOLINE), MapType::Framed, MapPermission::R().union(MapPermission::W()));
        proof {
            assert(area_summary(trap) == trap_area());
            assert(pages_of(s2) == pages_of(s1) + (brk_area(last).1 - brk_area(last).0)) by {
                assert(s2.drop_last() =~= s1);
            }
        }
        let ghost free_d = mem.allocator.free_count();
        let ghost ms_trap = ms;
        let ghost mem_trap = *mem;
        let res_trap = ms.push_disjoint(mem, trap, None);
        proof {
            lemma_fresh_step(&ms_trap, mem_trap, &ms, *mem, mem0);
            lemma_loaded_kept(&ms_trap, mem_trap, &ms, *mem, data, n);
        }
        match res_trap {
            Some(true) => {},
            None => {
                proof {
                    let all = elf_areas(data);
                    assert(all[s2.len() as int] == trap_area());
                    assert forall|j: int| 0 <= j < s2.len() implies #[trigger] all[j] == s2[j] by {}
                    if exists|j: int| 0 <= j < s2.len() && #[trigger] s2[j].0 < trap_area().1 && s2[j].1 > trap_area().0 {
                        let j = choose|j: int| 0 <= j < s2.len() && #[trigger] s2[j].0 < trap_area().1 && s2[j].1 > trap_area().0;
                        assert(all[j] == s2[j]);
                    }
                }
                return None;
            },
            Some(false) => {
                proof {
                    assert forall|j: int| 0 <= j < s2.len() implies #[trigger] elf_areas(data)[j] == s2[j] by {}
                    lemma_short_of_frames(data, s2, trap_area(), free0, free_d);
                }
                return None;
            },
        }
        proof {
            assert(ms.areas_view() =~= elf_areas(data));
            assert(pages_of(elf_areas(data)) == pages_of(s2) + (trap_area().1 - trap_area().0)) by {
                assert(elf_areas(data).drop_last() =~= s2);
            }
        }
        Some((ms, top, entry))
    }
}

/// Loads every program header of the ELF file `elf_data`, whose header reads `h`, into the user
/// space `ms` in the making, in order, with `load_segment`. Returns the end page of the area of
/// the last LOAD segment (0 when there is none); `None` when a header does not lie in the file,
/// a segment cannot be loaded, or frames run out, which happens only when the file is not one the
/// loader accepts or fewer than 3 frames per page of its areas, plus 3, were free in `mem0`.
fn load_segments(ms: &mut MemorySet, mem: &mut Memory, elf_data: &[u8], h: (u8, u16, u64, u64, u16), Ghost(mem0): Ghost<Memory>) -> (r: Option<VirtPageNum>)
    requires
        header_fits(elf_data@),
        elf_header_of(elf_data@) == Some(h),
        old(mem).wf(),
        old(ms).user_space_ok(*old(mem)),
        old(ms).areas_view() == Seq::<(int, int, MapType, u8)>::empty(),
        old(mem).allocator.free_count() >= mem0.allocator.free_count() - 3,
        forall|q: int| #[trigger] mem0.allocated(q) ==> old(mem).allocated(q),
        fresh_since(old(ms), mem0, *old(mem)),
    ensures
        final(mem).wf(),
        final(ms).user_space_ok(*final(mem)),
        fresh_since(final(ms), mem0, *final(mem)),
        forall|q: int| #[trigger] mem0.allocated(q) ==> final(mem).allocated(q),
        r is None ==> !(elf_loadable(elf_data@) && mem0.allocator.free_count() >= 3 + 3 * pages_of(elf_areas(elf_data@))),
        r matches Some(last_end) ==> {
            &&& final(ms).areas_view() == elf_load_areas(elf_data@, h.1 as nat)
            &&& last_end.0 == elf_last_end(elf_data@, h.1 as nat)
            &&& 0 <= last_end.0 <= 0x800_0000
            &&& elf_segments_ok(elf_data@, h, h.1 as nat)
            &&& final(mem).allocator.free_count() >= mem0.allocator.free_count() - 3 - 3 * pages_of(final(ms).areas_view())
            &&& segments_loaded(final(ms).area_seq(), final(mem).phys, elf_data@, h.1 as nat)
            &&& final(ms).view_in(final(mem).phys)[vpn_key(trampoline_vpn())] == old(ms).view_in(old(mem).phys)[vpn_key(trampoline_vpn())]
        },
{
    let ghost free0 = mem0.allocator.free_count();
    let ghost data = elf_data@;
    let ghost te = ms.view_in(mem.phys)[vpn_key(trampoline_vpn())];
    let len = elf_data.len();
    let (class, ph_count, entry, ph_offset, ph_entry_size) = h;
    proof {
        assert(pages_of(ms.areas_view()) == 0);
    }
    let mut last_end = VirtPageNum(0);
    let mut i: u16 = 0;
    proof {
        reveal(segments_loaded);
    }
    while i < ph_count
        invariant
            data == elf_data@,
            len == data.len(),
            header_fits(data),
            elf_header_of(data) == Some(h),
            h == (class, ph_count, entry, ph_offset, ph_entry_size),
            0 <= i <= ph_count,
            mem.wf(),
            ms.user_space_ok(*mem),
            ms.areas_view() == elf_load_areas(data, i as nat),
            last_end.0 == elf_last_end(data, i as nat),
            0 <= last_end.0 <= 0x800_0000,
            elf_segments_ok(data, h, i as nat),
            mem.allocator.free_count() >= free0 - 3 - 3 * pages_of(ms.areas_view()),
            forall|q: int| #[trigger] mem0.allocated(q) ==> mem.allocated(q),
            ms.view_in(mem.phys)[vpn_key(trampoline_vpn())] == te,
            fresh_since(&*ms, mem0, *mem),
            free0 == mem0.allocator.free_count(),
            segments_loaded(ms.area_seq(), mem.phys, data, i as nat),
        decreases ph_count - i,
    {
        let ghost ms_b = *ms;
        let ghost mem_b = *mem;
        proof {
            lemma_load_prefix(data, i as nat, ph_count as nat);
            lemma_load_prefix(data, (i + 1) as nat, ph_count as nat);
        }
        if !ph_entry_fits(h, i, len) {
            proof {
                if elf_loadable(data) {
                    assert(ph_entry_ok(h, i as int, len as int));
                }
            }
            return None;
        }
        let seg = elf_program_header(elf_data, i);
        let res = ms.load_segment(mem, elf_data, seg);
        proof {
            lemma_fresh_step(&ms_b, mem_b, &*ms, *mem, mem0);
        }
        match res {
            None => {
                proof {
                    if seg_ok(seg, len as int) {
                        let prev = elf_load_areas(data, i as nat);
                        let all = elf_areas(data);
                        let x = seg_area(seg);
                        assert(elf_load_areas(data, (i + 1) as nat) == prev.push(x));
                        assert(all[prev.len() as int] == x);
                        if exists|j: int| 0 <= j < prev.len() && #[trigger] prev[j].0 < x.1 && prev[j].1 > x.0 {
                            let j = choose|j: int| 0 <= j < prev.len() && #[trigger] prev[j].0 < x.1 && prev[j].1 > x.0;
                            assert(all[j] == prev[j]);
                        }
                    }
                }
                return None;
            },
            Some(false) => {
                proof {
                    let prev = elf_load_areas(data, i as nat);
                    assert(elf_load_areas(data, (i + 1) as nat) == prev.push(seg_area(seg)));
                    lemma_short_of_frames(data, prev, seg_area(seg), free0, mem_b.allocator.free_count());
                }
                return None;
            },
            Some(true) => {},
        }
        proof {
            lemma_loaded_load_step(&ms_b, mem_b, &*ms, *mem, data, i, seg);
        }
        if seg.1 {
            let e = VirtAddr::from_u64(seg.4 + seg.6).ceil();
            last_end = e;
            proof {
                let prev = ms_b.areas_view();
                let x = seg_area(seg);
                assert(prev.push(x).drop_last() =~= prev);
            }
        }
        proof {
            assert(seg == elf_program_header_of(data, i));
            assert(seg_ok(seg, len as int));
            lemma_segments_ok_extend(data, h, i as nat);
        }
        i = i + 1;
    }
    Some(last_end)
}

/// The entry that `pt` holds for page `v`, mapped there, is the one its mapping gives.
proof fn lemma_translate_view(pt: &PageTable, phys: PhysMem, v: u64)
    requires
        pt.view_in(phys).contains_key(vpn_key(v)),
    ensures
        crate::page_table::translate_spec(phys, pt.root(), v) == Some(pt.view_in(phys)[vpn_key(v)]),
{
    crate::page_table::lemma_walk_key(phys, pt.root(), v);
}

/// Copies each page of area `i` of `user_space` into the frame of the same page of area `i` of
/// `ms`, an area over the same pages whose frames were free in `mem0`, as were the frames of
/// `ms`'s table.
fn copy_area(ms: &MemorySet, user_space: &MemorySet, mem: &mut Memory, i: usize, Ghost(mem0): Ghost<Memory>)
    requires
        old(mem).wf(),
        ms.wf(*old(mem)),
        user_space.wf(*old(mem)),
        i < ms.area_seq().len(),
        i < user_space.area_seq().len(),
        area_summary(ms.area_seq()[i as int]) == area_summary(user_space.area_seq()[i as int]),
        user_space.area_seq()[i as int].end() <= 0x800_0000,
        ms.area_seq()[i as int].kind() == MapType::Framed ==> forall|v: u64| ms.area_seq()[i as int].has_page(v) ==> !mem0.allocated(#[trigger] ms.area_seq()[i as int].frames()[v].ppn.0 as int),
        forall|v: u64| user_space.area_seq()[i as int].kind() == MapType::Framed && user_space.area_seq()[i as int].has_page(v) ==> mem0.allocated(#[trigger] user_space.area_seq()[i as int].frames()[v].ppn.0 as int),
        forall|q: int| #[trigger] user_space.table().frame_set().contains(q) ==> mem0.allocated(q),
        mem0.phys.same_outside(&old(mem).phys, unallocated(mem0)),
    ensures
        final(mem).wf(),
        final(mem).allocator == old(mem).allocator,
        ms.wf(*final(mem)),
        user_space.wf(*final(mem)),
        ms.view_in(final(mem).phys) == ms.view_in(old(mem).phys),
        user_space.view_in(final(mem).phys) == user_space.view_in(old(mem).phys),
        old(mem).phys.same_outside(&final(mem).phys, ms.area_seq()[i as int].data_ppns()),
        mem0.phys.same_outside(&final(mem).phys, unallocated(mem0)),
        ms.area_seq()[i as int].kind() == MapType::Framed ==> forall|v: u64, off: int|
            ms.area_seq()[i as int].has_page(v) && 0 <= off < PAGE_SIZE ==> #[trigger] final(mem).phys.byte(ms.area_seq()[i as int].frames()[v].ppn.0 as int, off)
                == mem0.phys.byte(user_space.area_seq()[i as int].frames()[v].ppn.0 as int, off),
{
    let ghost a = ms.area_seq()[i as int];
    let ghost b = user_space.area_seq()[i as int];
    let ghost m_start = *mem;
    let ghost pt = ms.table();
    let ghost upt = user_space.table();
    let ghost data = a.data_ppns();
    proof {
        assert(ms.area_seq()[i as int].area_ok(&pt, m_start));
        assert(user_space.area_seq()[i as int].area_ok(&upt, m_start));
        lemma_same_outside_refl(&mem.phys, data);
        pt.lemma_frames_allocated(m_start);
        upt.lemma_frames_allocated(m_start);
    }
    let start = user_space.areas[i].vpn_range.get_start();
    let end = user_space.areas[i].vpn_range.get_end();
    let mut vpn = start;
    while vpn.0 < end.0
        invariant
            a == ms.area_seq()[i as int],
            b == user_space.area_seq()[i as int],
            pt == ms.table(),
            upt == user_space.table(),
            data == a.data_ppns(),
            m_start == *old(mem),
            area_summary(a) == area_summary(b),
            a.area_ok(&pt, m_start),
            b.area_ok(&upt, m_start),
            start.0 == b.start(),
            end.0 == b.end(),
            b.start() <= vpn.0 <= b.end(),
            b.end() <= 0x800_0000,
            pt.wf(m_start),
            upt.wf(m_start),
            mem.wf(),
            mem.allocator == m_start.allocator,
            m_start.phys.same_outside(&mem.phys, data),
            mem0.phys.same_outside(&m_start.phys, unallocated(mem0)),
            a.kind() == MapType::Framed ==> forall|v: u64| a.has_page(v) ==> !mem0.allocated(#[trigger] a.frames()[v].ppn.0 as int),
            forall|v: u64| b.kind() == MapType::Framed && b.has_page(v) ==> mem0.allocated(#[trigger] b.frames()[v].ppn.0 as int),
            forall|q: int| #[trigger] upt.frame_set().contains(q) ==> mem0.allocated(q),
            forall|p: int| #[trigger] pt.frame_set().contains(p) ==> m_start.allocated(p) && m_start.phys.has_frame(p),
            forall|p: int| #[trigger] upt.frame_set().contains(p) ==> m_start.allocated(p) && m_start.phys.has_frame(p),
            data.disjoint(pt.frame_set()),
            data.disjoint(upt.frame_set()),
            a.kind() == MapType::Framed ==> forall|v: u64, off: int|
                b.start() <= v < vpn.0 && 0 <= off < PAGE_SIZE ==> #[trigger] mem.phys.byte(a.frames()[v].ppn.0 as int, off)
                    == mem0.phys.byte(b.frames()[v].ppn.0 as int, off),
        decreases end.0 - vpn.0,
    {
        let ghost mb = *mem;
        proof {
            pt.lemma_frame_local(m_start, mb, data);
            upt.lemma_frame_local(m_start, mb, data);
            assert(a.has_page(vpn.0));
            assert(pt.view_in(m_start.phys).contains_key(vpn_key(vpn.0)));
            assert(upt.view_in(m_start.phys).contains_key(vpn_key(vpn.0)));
            assert(pt.view_in(mb.phys)[vpn_key(vpn.0)] == a.entry_for(vpn.0));
            assert(upt.view_in(mb.phys)[vpn_key(vpn.0)] == b.entry_for(vpn.0));
            lemma_translate_view(&pt, mb.phys, vpn.0);
            lemma_translate_view(&upt, mb.phys, vpn.0);
            if a.kind() == MapType::Framed {
                lemma_area_entry_ppn(a.target(vpn.0), a.perm());
                lemma_area_entry_ppn(b.target(vpn.0), b.perm());
            } else {
                lemma_area_entry_ppn(vpn.0, a.perm());
            }
        }
        let src = user_space.translate(&mem.phys, vpn).unwrap().ppn();
        let dst = ms.translate(&mem.phys, vpn).unwrap().ppn();
        if dst.0 != src.0 {
            let ghost before = mem.phys;
            proof {
                assert(a.kind() == MapType::Framed);
                assert(data.contains(dst.0 as int)) by {
                    assert(a.frames().contains_key(vpn.0) && a.frames()[vpn.0].ppn.0 == dst.0);
                }
                assert(mem0.allocated(src.0 as int));
                assert(!mem0.allocated(dst.0 as int));
            }
            mem.phys.copy_frame(dst, src);
            proof {
                Memory::lemma_wf_bytes_changed(mb, *mem);
                lemma_same_outside_trans(&m_start.phys, &before, &mem.phys, data, set![dst.0 as int], data);
                assert(!unallocated(mem0).contains(src.0 as int));
                assert forall|v: u64, off: int|
                    b.start() <= v < vpn.0 + 1 && 0 <= off < PAGE_SIZE implies #[trigger] mem.phys.byte(a.frames()[v].ppn.0 as int, off)
                        == mem0.phys.byte(b.frames()[v].ppn.0 as int, off) by {
                    if v < vpn.0 {
                        assert(a.frames()[v].ppn != a.frames()[vpn.0].ppn);
                        assert(before.byte(a.frames()[v].ppn.0 as int, off) == mem0.phys.byte(b.frames()[v].ppn.0 as int, off));
                    } else {
                        assert(before.byte(src.0 as int, off) == m_start.phys.byte(src.0 as int, off));
                        assert(m_start.phys.byte(src.0 as int, off) == mem0.phys.byte(src.0 as int, off));
                    }
                }
            }
        } else {
            proof {
                if a.kind() == MapType::Framed {
                    assert(mem0.allocated(src.0 as int));
                    assert(!mem0.allocated(dst.0 as int));
                }
            }
        }
        vpn.step();
    }
    proof {
        pt.lemma_frame_local(m_start, *mem, data);
        upt.lemma_frame_local(m_start, *mem, data);
        lemma_areas_grow(ms.area_seq(), &pt, m_start, &pt, *mem);
        lemma_areas_grow(user_space.area_seq(), &upt, m_start, &upt, *mem);
        assert(data.subset_of(unallocated(mem0))) by {
            assert forall|q: int| #[trigger] data.contains(q) implies unallocated(mem0).contains(q) by {
                let w = choose|w: u64| #[trigger] a.frames().contains_key(w) && a.frames()[w].ppn.0 == q;
                if a.kind() == MapType::Framed {
                    assert(a.has_page(w));
                } else {
                    assert(a.frames().dom().contains(w));
                }
            }
        }
        lemma_same_outside_trans(&mem0.phys, &m_start.phys, &mem.phys, unallocated(mem0), data, unallocated(mem0));
    }
}

impl MemorySet {
    /// A copy of the user address space `user_space`: the trampoline, mapped to `strampoline`,
    /// and, for each area of `user_space`, an area over the same pages, of the same type and
    /// permission, whose frames hold the bytes of the frames of `user_space`'s area. Only frames
    /// that were free change, so `user_space` keeps its mappings and bytes. `None` when frames run
    /// out, which happens only with fewer than 3 frames free per page of its areas, plus 3.
    #[verifier::rlimit(50)]
    pub fn from_existed_user(mem: &mut Memory, user_space: &MemorySet, strampoline: PhysAddr) -> (r: Option<MemorySet>)
        requires
            old(mem).wf(),
            user_space.user_space_ok(*old(mem)),
            strampoline.0 % PAGE_SIZE == 0,
        ensures
            final(mem).wf(),
            forall|q: int| #[trigger] old(mem).allocated(q) ==> final(mem).allocated(q),
            old(mem).phys.same_outside(&final(mem).phys, unallocated(*old(mem))),
            user_space.wf(*final(mem)),
            user_space.view_in(final(mem).phys) == user_space.view_in(old(mem).phys),
            r is None ==> old(mem).allocator.free_count() < 3 + 3 * pages_of(user_space.areas_view()),
            r is Some ==> final(mem).allocator.free_count() >= old(mem).allocator.free_count() - 3 - 3 * pages_of(user_space.areas_view()),
            r matches Some(ms) ==> fresh_since(&ms, *old(mem), *final(mem)),
            r matches Some(ms) ==> {
                &&& ms.user_space_ok(*final(mem))
                &&& ms.areas_view() == user_space.areas_view()
                &&& ms.view_in(final(mem).phys)[vpn_key(trampoline_vpn())] == trampoline_entry(strampoline.0)
                &&& forall|i: int, v: u64, off: int|
                    0 <= i < ms.area_seq().len() && ms.area_seq()[i].kind() == MapType::Framed && ms.area_seq()[i].has_page(v)
                        && 0 <= off < PAGE_SIZE ==> #[trigger] final(mem).phys.byte(ms.area_seq()[i].frames()[v].ppn.0 as int, off)
                        == old(mem).phys.byte(user_space.area_seq()[i].frames()[v].ppn.0 as int, off)
            },
    {
        let ghost mem0 = *mem;
        let ghost free0 = mem.allocator.free_count();
        let ghost src = user_space.areas_view();
        proof {
            assert forall|j: int| 0 <= j < src.len() implies (#[trigger] src[j]).0 <= src[j].1 by {
                assert(below_trampoline(src[j]));
            }
            lemma_pages_prefix(src, 0);
            assert(src.take(0) =~= Seq::<(int, int, MapType, u8)>::empty());
            user_space.table().lemma_frames_allocated(mem0);
        }
        let mut ms = match MemorySet::new_bare(mem) {
            None => {
                proof {
                    lemma_same_outside_refl(&mem.phys, unallocated(mem0));
                    lemma_same_outside_refl(&mem.phys, Set::<int>::empty());
                    user_space.table().lemma_frame_local(mem0, *mem, Set::<int>::empty());
                    lemma_areas_grow(user_space.area_seq(), &user_space.table(), mem0, &user_space.table(), *mem);
                }
                return None;
            },
            Some(ms) => ms,
        };
        let ghost mem1 = *mem;
        proof {
            lemma_small_key(trampoline_vpn());
        }
        let ok = ms.map_trampoline(mem, strampoline);
        proof {
            assert(unallocated(mem1).subset_of(unallocated(mem0)));
            assert(set![ms.table().root()].subset_of(unallocated(mem0)));
            lemma_same_outside_trans(&mem0.phys, &mem1.phys, &mem.phys, set![ms.table().root()], ms.table().frame_set() + unallocated(mem1), unallocated(mem0));
            user_space.table().lemma_frame_local(mem0, *mem, unallocated(mem0));
            lemma_areas_grow(user_space.area_seq(), &user_space.table(), mem0, &user_space.table(), *mem);
        }
        if !ok {
            return None;
        }
        let ghost te = trampoline_entry(strampoline.0);
        proof {
            let view = ms.view_in(mem.phys);
            assert(ms.areas_view() =~= Seq::<(int, int, MapType, u8)>::empty());
            assert forall|k: u64| #[trigger] view.contains_key(k) <==> k == vpn_key(trampoline_vpn())
                || exists|i: int| 0 <= i < ms.areas_view().len() && key_in(k, ms.areas_view()[i].0, ms.areas_view()[i].1) by {}
            assert(pages_of(ms.areas_view()) == 0);
            assert(src.take(0) =~= ms.areas_view());
        }
        let n = user_space.areas.len();
        proof {
            assert(unallocated(mem0).disjoint(user_space.table().frame_set()));
        }
        let mut i: usize = 0;
        while i < n
            invariant
                n == user_space.area_seq().len(),
                src == user_space.areas_view(),
                0 <= i <= n,
                mem0 == *old(mem),
                free0 == mem0.allocator.free_count(),
                user_space.user_space_ok(mem0),
                mem.wf(),
                ms.user_space_ok(*mem),
                ms.areas_view() == src.take(i as int),
                ms.area_seq().len() == i,
                ms.view_in(mem.phys)[vpn_key(trampoline_vpn())] == te,
                mem.allocator.free_count() >= free0 - 3 - 3 * pages_of(ms.areas_view()),
                forall|q: int| #[trigger] mem0.allocated(q) ==> mem.allocated(q),
                mem0.phys.same_outside(&mem.phys, unallocated(mem0)),
                forall|q: int| #[trigger] ms.table().frame_set().contains(q) ==> !mem0.allocated(q),
                forall|j: int, v: u64| 0 <= j < i && ms.area_seq()[j].kind() == MapType::Framed && ms.area_seq()[j].has_page(v)
                    ==> !mem0.allocated(#[trigger] ms.area_seq()[j].frames()[v].ppn.0 as int),
                user_space.wf(*mem),
                user_space.view_in(mem.phys) == user_space.view_in(mem0.phys),
                forall|q: int| #[trigger] user_space.table().frame_set().contains(q) ==> mem0.allocated(q),
                unallocated(mem0).disjoint(user_space.table().frame_set()),
                forall|j: int, v: u64, off: int|
                    0 <= j < i && ms.area_seq()[j].kind() == MapType::Framed && ms.area_seq()[j].has_page(v)
                        && 0 <= off < PAGE_SIZE ==> #[trigger] mem.phys.byte(ms.area_seq()[j].frames()[v].ppn.0 as int, off)
                        == mem0.phys.byte(user_space.area_seq()[j].frames()[v].ppn.0 as int, off),
            decreases n - i,
        {
            let ghost mb = *mem;
            let ghost msb = ms;
            proof {
                assert(user_space.area_seq()[i as int].area_ok(&user_space.table(), mem0));
                assert(src[i as int] == area_summary(user_space.area_seq()[i as int]));
            }
            let new_area = MapArea::from_another(&user_space.areas[i]);
            let res = ms.push_disjoint(mem, new_area, None);
            match res {
                None => {
                    proof {
                        assert(below_trampoline(src[i as int]));
                        let j = choose|j: int| 0 <= j < msb.areas_view().len() && #[trigger] msb.areas_view()[j].0 < new_area.end() && msb.areas_view()[j].1 > new_area.start();
                        assert(msb.areas_view()[j] == src[j]);
                        assert(false);
                    }
                    return None;
                },
                Some(false) => {
                    proof {
                        let prev = src.take(i as int);
                        let x = src[i as int];
                        assert(src.take(i + 1) =~= prev.push(x));
                        assert(prev.push(x).drop_last() =~= prev);
                        assert forall|j: int| 0 <= j < src.len() implies (#[trigger] src[j]).0 <= src[j].1 by {
                            assert(below_trampoline(src[j]));
                        }
                        lemma_pages_prefix(src, i + 1);
                        lemma_same_outside_trans(&mem0.phys, &mb.phys, &mem.phys, unallocated(mem0), ms.table().frame_set() + unallocated(mb), unallocated(mem0));
                        user_space.table().lemma_frame_local(mem0, *mem, unallocated(mem0));
                        lemma_areas_grow(user_space.area_seq(), &user_space.table(), mem0, &user_space.table(), *mem);
                    }
                    return None;
                },
                Some(true) => {},
            }
            let ghost mc = *mem;
            proof {
                assert(ms.areas_view().drop_last() =~= msb.areas_view());
                assert(ms.area_seq()[i as int] == ms.area_seq().last());
                assert forall|q: int| #[trigger] unallocated(mb).contains(q) implies unallocated(mem0).contains(q) by {}
                lemma_same_outside_trans(&mem0.phys, &mb.phys, &mem.phys, unallocated(mem0), ms.table().frame_set() + unallocated(mb), unallocated(mem0));
                user_space.table().lemma_frame_local(mem0, *mem, unallocated(mem0));
                lemma_areas_grow(user_space.area_seq(), &user_space.table(), mem0, &user_space.table(), *mem);
                assert(ms.areas_view() =~= src.take(i + 1));
                assert forall|j: int, v: u64, off: int|
                    0 <= j < i && ms.area_seq()[j].kind() == MapType::Framed && ms.area_seq()[j].has_page(v)
                        && 0 <= off < PAGE_SIZE implies #[trigger] mem.phys.byte(ms.area_seq()[j].frames()[v].ppn.0 as int, off)
                        == mem0.phys.byte(user_space.area_seq()[j].frames()[v].ppn.0 as int, off) by {
                    assert(ms.area_seq()[j] == msb.area_seq()[j]);
                    let f = ms.area_seq()[j].frames()[v].ppn.0 as int;
                    assert(ms.area_seq()[j].area_ok(&ms.table(), *mem));
                    assert(mem.allocated(f));
                    assert(mb.allocated(f)) by {
                        assert(msb.area_seq()[j].area_ok(&msb.table(), mb));
                    }
                    assert(!ms.table().frame_set().contains(f));
                    assert(mb.phys.has_frame(f));
                }
                assert(area_summary(ms.area_seq()[i as int]) == area_summary(user_space.area_seq()[i as int]));
                assert(src[i as int].1 <= 0x800_0000) by {
                    assert(below_trampoline(src[i as int]));
                }
                assert forall|v: u64| user_space.area_seq()[i as int].kind() == MapType::Framed && user_space.area_seq()[i as int].has_page(v)
                    implies mem0.allocated(#[trigger] user_space.area_seq()[i as int].frames()[v].ppn.0 as int) by {}
            }
            copy_area(&ms, user_space, mem, i, Ghost(mem0));
            proof {
                let a = ms.area_seq()[i as int];
                assert forall|j: int, v: u64, off: int|
                    0 <= j < i + 1 && ms.area_seq()[j].kind() == MapType::Framed && ms.area_seq()[j].has_page(v)
                        && 0 <= off < PAGE_SIZE implies #[trigger] mem.phys.byte(ms.area_seq()[j].frames()[v].ppn.0 as int, off)
                        == mem0.phys.byte(user_space.area_seq()[j].frames()[v].ppn.0 as int, off) by {
                    if j < i {
                        let f = ms.area_seq()[j].frames()[v].ppn.0 as int;
                        assert(mc.phys.byte(f, off) == mem0.phys.byte(user_space.area_seq()[j].frames()[v].ppn.0 as int, off));
                        assert(!a.data_ppns().contains(f)) by {
                            if a.data_ppns().contains(f) {
                                let w = choose|w: u64| #[trigger] a.frames().contains_key(w) && a.frames()[w].ppn.0 == f;
                                assert(ms.area_seq()[i as int].area_ok(&ms.table(), mc));
                                if a.kind() == MapType::Framed {
                                    assert(a.has_page(w));
                                    assert(ms.area_seq()[j].frames()[v].ppn != ms.area_seq()[i as int].frames()[w].ppn);
                                } else {
                                    assert(a.frames().dom().contains(w));
                                }
                            }
                        }
                        assert(ms.area_seq()[j].area_ok(&ms.table(), mc));
                        assert(mc.phys.has_frame(f));
                    }
                }
                assert forall|j: int, v: u64| 0 <= j < i + 1 && ms.area_seq()[j].kind() == MapType::Framed && ms.area_seq()[j].has_page(v)
                    implies !mem0.allocated(#[trigger] ms.area_seq()[j].frames()[v].ppn.0 as int) by {
                    if j < i {
                        assert(ms.area_seq()[j] == msb.area_seq()[j]);
                    }
                }
            }
            i = i + 1;
        }
        proof {
            assert(src.take(n as int) =~= src);
            assert forall|q: int| ms.holds_data_frame(q) implies !mem0.allocated(q) by {
                let (j, v) = choose|j: int, v: u64| 0 <= j < ms.area_seq().len() && ms.area_seq()[j].kind() == MapType::Framed
                    && ms.area_seq()[j].has_page(v) && #[trigger] ms.area_seq()[j].frames()[v].ppn.0 == q;
                assert(!mem0.allocated(ms.area_seq()[j].frames()[v].ppn.0 as int));
            }
        }
        Some(ms)
    }
}

impl MemorySet {
    /// A frame of one of the areas.
    pub open spec fn holds_data_frame(&self, q: int) -> bool {
        exists|i: int, v: u64| 0 <= i < self.area_seq().len() && self.area_seq()[i].kind() == MapType::Framed
            && self.area_seq()[i].has_page(v) && #[trigger] self.area_seq()[i].frames()[v].ppn.0 == q
    }

    /// Gives back every frame of the address space, its areas' and its table's, as dropping it
    /// does.
    pub fn release(self, mem: &mut Memory)
        requires
            old(mem).wf(),
            self.wf(*old(mem)),
        ensures
            final(mem).wf(),
            final(mem).phys == old(mem).phys,
            final(mem).allocator.free_count() >= old(mem).allocator.free_count(),
            forall|q: int| #[trigger] final(mem).allocated(q) == (old(mem).allocated(q) && !self.table().frame_set().contains(q)
                && !self.holds_data_frame(q)),
    {
        let ghost mem0 = *mem;
        let ghost me = self;
        let mut ms = self;
        ms.recycle_data_pages(mem);
        let ghost mem1 = *mem;
        let pt = ms.page_table;
        pt.release(mem);
        proof {
            assert forall|q: int| #[trigger] mem.allocated(q) == (mem0.allocated(q) && !me.table().frame_set().contains(q)
                && !me.holds_data_frame(q)) by {
                if mem0.allocated(q) && !mem1.allocated(q) {
                    let (i, v) = choose|i: int, v: u64| 0 <= i < me.area_seq().len() && me.area_seq()[i].kind() == MapType::Framed
                        && me.area_seq()[i].has_page(v) && me.area_seq()[i].frames()[v].ppn.0 == q;
                    assert(me.holds_data_frame(q));
                }
                if me.holds_data_frame(q) {
                    let (i, v) = choose|i: int, v: u64| 0 <= i < me.area_seq().len() && me.area_seq()[i].kind() == MapType::Framed
                        && me.area_seq()[i].has_page(v) && #[trigger] me.area_seq()[i].frames()[v].ppn.0 == q;
                    assert(!mem1.allocated(me.area_seq()[i].frames()[v].ppn.0 as int));
                }
            }
        }
    }
}

impl MemorySet {
    /// Whether none of the pages `[start, end)` is mapped.
    pub fn range_free(&self, phys: &PhysMem, start: VirtPageNum, end: VirtPageNum) -> (r: bool)
        requires
            phys.wf(),
        ensures
            r == forall|v: u64| start.0 <= v < end.0 ==> !self.view_in(*phys).contains_key(#[trigger] vpn_key(v)),
    {
        let mut v = start;
        while v.0 < end.0
            invariant
                phys.wf(),
                start.0 <= v.0,
                forall|w: u64| start.0 <= w < v.0 && w < end.0 ==> !self.view_in(*phys).contains_key(#[trigger] vpn_key(w)),
            decreases end.0 - v.0,
        {
            proof {
                crate::page_table::lemma_walk_key(*phys, self.table().root(), v.0);
            }
            match self.translate(phys, v) {
                Some(e) => {
                    if e.is_valid() {
                        proof {
                            assert(self.view_in(*phys).contains_key(vpn_key(v.0)));
                        }
                        return false;
                    }
                },
                None => {},
            }
            v.step();
        }
        true
    }
}

/// The areas are framed, lie below the trampoline and share no page, and `view` maps exactly
/// their pages and the trampoline.
pub open spec fn space_ok(areas: Seq<(int, int, MapType, u8)>, view: Map<u64, PageTableEntry>) -> bool {
    &&& areas_disjoint(areas)
    &&& forall|i: int| 0 <= i < areas.len() ==> below_trampoline(#[trigger] areas[i])
    &&& forall|i: int| 0 <= i < areas.len() ==> (#[trigger] areas[i]).2 == MapType::Framed
    &&& forall|k: u64| #[trigger] view.contains_key(k) <==> k == vpn_key(trampoline_vpn())
        || exists|i: int| 0 <= i < areas.len() && key_in(k, areas[i].0, areas[i].1)
    &&& view.contains_key(vpn_key(trampoline_vpn()))
}

/// A key of a page of an area below the trampoline is that page.
proof fn lemma_key_in_small(k: u64, a: (int, int, MapType, u8))
    requires
        below_trampoline(a),
    ensures
        key_in(k, a.0, a.1) <==> a.0 <= k < a.1,
{
    if key_in(k, a.0, a.1) {
        let w = choose|w: u64| a.0 <= w < a.1 && #[trigger] vpn_key(w) == k;
        lemma_small_key(w);
    }
    if a.0 <= k < a.1 {
        lemma_small_key(k);
        assert(vpn_key(k) == k);
    }
}

/// Ending area `i` earlier, at `ne`, and unmapping the pages beyond keeps the space ok.
pub proof fn lemma_space_shrink(areas: Seq<(int, int, MapType, u8)>, view: Map<u64, PageTableEntry>, i: int, ne: int, view1: Map<u64, PageTableEntry>)
    requires
        space_ok(areas, view),
        0 <= i < areas.len(),
        areas[i].0 <= ne <= areas[i].1,
        forall|k: u64| #[trigger] view1.contains_key(k) <==> view.contains_key(k) && !key_in(k, ne, areas[i].1),
    ensures
        space_ok(areas.update(i, (areas[i].0, ne, areas[i].2, areas[i].3)), view1),
{
    let a1 = areas.update(i, (areas[i].0, ne, areas[i].2, areas[i].3));
    lemma_small_key(trampoline_vpn());
    assert(below_trampoline(areas[i]));
    assert forall|j: int| 0 <= j < a1.len() implies below_trampoline(#[trigger] a1[j]) by {
        assert(below_trampoline(areas[j]));
    }
    assert forall|x: int, y: int| 0 <= x < y < a1.len() implies !(#[trigger] a1[x].0 < a1[y].1 && #[trigger] a1[y].0 < a1[x].1) by {
        assert(!(areas[x].0 < areas[y].1 && areas[y].0 < areas[x].1));
    }
    assert forall|k: u64| #[trigger] view1.contains_key(k) <==> k == vpn_key(trampoline_vpn())
        || exists|j: int| 0 <= j < a1.len() && key_in(k, a1[j].0, a1[j].1) by {
        lemma_key_in_small(k, (ne, areas[i].1, areas[i].2, areas[i].3));
        lemma_key_in_small(k, areas[i]);
        lemma_key_in_small(k, a1[i]);
        if exists|j: int| 0 <= j < a1.len() && key_in(k, a1[j].0, a1[j].1) {
            let j = choose|j: int| 0 <= j < a1.len() && key_in(k, a1[j].0, a1[j].1);
            lemma_key_in_small(k, a1[j]);
            lemma_key_in_small(k, areas[j]);
            assert(key_in(k, areas[j].0, areas[j].1));
            if j != i {
                assert(!(areas[i].0 < areas[j].1 && areas[j].0 < areas[i].1)) by {
                    if i < j {} else {}
                }
            }
        }
        if view.contains_key(k) && k != vpn_key(trampoline_vpn()) && !key_in(k, ne, areas[i].1) {
            let j = choose|j: int| 0 <= j < areas.len() && key_in(k, areas[j].0, areas[j].1);
            lemma_key_in_small(k, areas[j]);
            lemma_key_in_small(k, a1[j]);
            assert(key_in(k, a1[j].0, a1[j].1));
        }
        if k == vpn_key(trampoline_vpn()) {
            assert(!(ne <= k < areas[i].1));
        }
    }
    assert(view1.contains_key(vpn_key(trampoline_vpn()))) by {
        assert(!(ne <= trampoline_vpn() < areas[i].1));
        lemma_key_in_small(vpn_key(trampoline_vpn()), (ne, areas[i].1, areas[i].2, areas[i].3));
    }
}

/// Ending area `i` later, at `ne` below the trampoline, over pages that were not mapped and now
/// are, keeps the space ok.
pub proof fn lemma_space_append(areas: Seq<(int, int, MapType, u8)>, view: Map<u64, PageTableEntry>, i: int, ne: int, view1: Map<u64, PageTableEntry>)
    requires
        space_ok(areas, view),
        0 <= i < areas.len(),
        areas[i].1 <= ne <= trampoline_vpn(),
        forall|j: int| 0 <= j < areas.len() && j != i ==> !(#[trigger] areas[j].0 < ne && areas[i].0 < areas[j].1),
        forall|k: u64| #[trigger] view1.contains_key(k) <==> view.contains_key(k) || key_in(k, areas[i].1, ne),
    ensures
        space_ok(areas.update(i, (areas[i].0, ne, areas[i].2, areas[i].3)), view1),
{
    let a1 = areas.update(i, (areas[i].0, ne, areas[i].2, areas[i].3));
    let e = areas[i].1;
    lemma_small_key(trampoline_vpn());
    assert(below_trampoline(areas[i]));
    assert forall|j: int| 0 <= j < a1.len() implies below_trampoline(#[trigger] a1[j]) by {
        assert(below_trampoline(areas[j]));
    }
    assert forall|x: int, y: int| 0 <= x < y < a1.len() implies !(#[trigger] a1[x].0 < a1[y].1 && #[trigger] a1[y].0 < a1[x].1) by {
        assert(!(areas[x].0 < areas[y].1 && areas[y].0 < areas[x].1));
        if x == i {
            assert(!(areas[y].0 < ne && areas[i].0 < areas[y].1));
        } else if y == i {
            assert(!(areas[x].0 < ne && areas[i].0 < areas[x].1));
        }
    }
    assert forall|k: u64| #[trigger] view1.contains_key(k) <==> k == vpn_key(trampoline_vpn())
        || exists|j: int| 0 <= j < a1.len() && key_in(k, a1[j].0, a1[j].1) by {
        lemma_key_in_small(k, (e, ne, areas[i].2, areas[i].3));
        lemma_key_in_small(k, areas[i]);
        lemma_key_in_small(k, a1[i]);
        if exists|j: int| 0 <= j < a1.len() && key_in(k, a1[j].0, a1[j].1) {
            let j = choose|j: int| 0 <= j < a1.len() && key_in(k, a1[j].0, a1[j].1);
            lemma_key_in_small(k, a1[j]);
            lemma_key_in_small(k, areas[j]);
            if j != i || k < e {
                assert(key_in(k, areas[j].0, areas[j].1));
            }
        }
        if view.contains_key(k) && k != vpn_key(trampoline_vpn()) {
            let j = choose|j: int| 0 <= j < areas.len() && key_in(k, areas[j].0, areas[j].1);
            lemma_key_in_small(k, areas[j]);
            lemma_key_in_small(k, a1[j]);
            assert(key_in(k, a1[j].0, a1[j].1));
        }
    }
}

/// Adding an area below the trampoline over pages that were not mapped and now are keeps the
/// space ok.
pub proof fn lemma_space_push(areas: Seq<(int, int, MapType, u8)>, view: Map<u64, PageTableEntry>, x: (int, int, MapType, u8), view1: Map<u64, PageTableEntry>)
    requires
        space_ok(areas, view),
        below_trampoline(x),
        x.2 == MapType::Framed,
        forall|j: int| 0 <= j < areas.len() ==> !(#[trigger] areas[j].0 < x.1 && areas[j].1 > x.0),
        forall|k: u64| #[trigger] view1.contains_key(k) <==> view.contains_key(k) || key_in(k, x.0, x.1),
    ensures
        space_ok(areas.push(x), view1),
{
    let a1 = areas.push(x);
    let n = areas.len() as int;
    lemma_small_key(trampoline_vpn());
    assert forall|j: int| 0 <= j < a1.len() implies below_trampoline(#[trigger] a1[j]) by {
        if j < n {
            assert(a1[j] == areas[j]);
        }
    }
    assert forall|p: int, q: int| 0 <= p < q < a1.len() implies !(#[trigger] a1[p].0 < a1[q].1 && #[trigger] a1[q].0 < a1[p].1) by {
        if q < n {
            assert(a1[p] == areas[p] && a1[q] == areas[q]);
        } else {
            assert(a1[p] == areas[p]);
            assert(!(areas[p].0 < x.1 && areas[p].1 > x.0));
        }
    }
    assert forall|k: u64| #[trigger] view1.contains_key(k) <==> k == vpn_key(trampoline_vpn())
        || exists|j: int| 0 <= j < a1.len() && key_in(k, a1[j].0, a1[j].1) by {
        if exists|j: int| 0 <= j < a1.len() && key_in(k, a1[j].0, a1[j].1) {
            let j = choose|j: int| 0 <= j < a1.len() && key_in(k, a1[j].0, a1[j].1);
            if j < n {
                assert(a1[j] == areas[j]);
            }
        }
        if view.contains_key(k) && k != vpn_key(trampoline_vpn()) {
            let j = choose|j: int| 0 <= j < areas.len() && key_in(k, areas[j].0, areas[j].1);
            assert(a1[j] == areas[j]);
        }
        if key_in(k, x.0, x.1) {
            assert(a1[n] == x);
        }
    }
}

/// Removing area `i` and unmapping its pages keeps the space ok.
pub proof fn lemma_space_remove(areas: Seq<(int, int, MapType, u8)>, view: Map<u64, PageTableEntry>, i: int, view1: Map<u64, PageTableEntry>)
    requires
        space_ok(areas, view),
        0 <= i < areas.len(),
        forall|k: u64| #[trigger] view1.contains_key(k) <==> view.contains_key(k) && !key_in(k, areas[i].0, areas[i].1),
    ensures
        space_ok(areas.remove(i), view1),
{
    let a1 = areas.remove(i);
    lemma_small_key(trampoline_vpn());
    assert(below_trampoline(areas[i]));
    assert forall|j: int| 0 <= j < a1.len() implies below_trampoline(#[trigger] a1[j]) by {
        if j < i { assert(a1[j] == areas[j]); } else { assert(a1[j] == areas[j + 1]); }
    }
    assert forall|p: int, q: int| 0 <= p < q < a1.len() implies !(#[trigger] a1[p].0 < a1[q].1 && #[trigger] a1[q].0 < a1[p].1) by {
        let pp = if p < i { p } else { p + 1 };
        let qq = if q < i { q } else { q + 1 };
        assert(a1[p] == areas[pp] && a1[q] == areas[qq]);
        assert(!(areas[pp].0 < areas[qq].1 && areas[qq].0 < areas[pp].1));
    }
    assert forall|k: u64| #[trigger] view1.contains_key(k) <==> k == vpn_key(trampoline_vpn())
        || exists|j: int| 0 <= j < a1.len() && key_in(k, a1[j].0, a1[j].1) by {
        lemma_key_in_small(k, areas[i]);
        if exists|j: int| 0 <= j < a1.len() && key_in(k, a1[j].0, a1[j].1) {
            let j = choose|j: int| 0 <= j < a1.len() && key_in(k, a1[j].0, a1[j].1);
            let jj = if j < i { j } else { j + 1 };
            assert(a1[j] == areas[jj]);
            lemma_key_in_small(k, areas[jj]);
            assert(!(areas[i].0 < areas[jj].1 && areas[jj].0 < areas[i].1)) by {
                if i < jj {} else {}
            }
        }
        if view.contains_key(k) && k != vpn_key(trampoline_vpn()) && !key_in(k, areas[i].0, areas[i].1) {
            let j = choose|j: int| 0 <= j < areas.len() && key_in(k, areas[j].0, areas[j].1);
            assert(j != i);
            let jj = if j < i { j } else { j - 1 };
            assert(a1[jj] == areas[j]);
        }
        if k == vpn_key(trampoline_vpn()) {
            assert(!(areas[i].0 <= k < areas[i].1));
        }
    }
    assert(view1.contains_key(vpn_key(trampoline_vpn()))) by {
        assert(!(areas[i].0 <= trampoline_vpn() < areas[i].1));
    }
}

impl MemorySet {
    /// Index, first page and end page of the first area that starts at page `start`.
    pub fn area_bounds(&self, start: VirtPageNum) -> (r: Option<(usize, VirtPageNum, VirtPageNum)>)
        ensures
            match r {
                Some((i, s, e)) => is_first_match(self.areas_view(), i as int, start.0 as int, None)
                    && self.areas_view()[i as int].0 == s.0 && self.areas_view()[i as int].1 == e.0,
                None => !has_match(self.areas_view(), start.0 as int, None),
            },
    {
        match self.find_area(start, None) {
            None => None,
            Some(i) => {
                let s = self.areas[i].vpn_range.get_start();
                let e = self.areas[i].vpn_range.get_end();
                Some((i, s, e))
            },
        }
    }

    /// Whether an area other than area `i` intersects the pages `[start, end)`.
    pub fn is_overlap_except(&self, i: usize, start: VirtPageNum, end: VirtPageNum) -> (r: bool)
        ensures
            r == exists|j: int| 0 <= j < self.areas_view().len() && j != i && #[trigger] self.areas_view()[j].0 < end.0 && self.areas_view()[j].1 > start.0,
    {
        let mut j: usize = 0;
        while j < self.areas.len()
            invariant
                0 <= j <= self.areas@.len(),
                forall|k: int| 0 <= k < j && k != i ==> !(#[trigger] self.areas_view()[k].0 < end.0 && self.areas_view()[k].1 > start.0),
            decreases self.areas@.len() - j,
        {
            let a = &self.areas[j];
            if j != i && a.vpn_range.get_start().0 < end.0 && a.vpn_range.get_end().0 > start.0 {
                assert(self.areas_view()[j as int].0 < end.0);
                return true;
            }
            j = j + 1;
        }
        false
    }
}

/// When some area matches, a first one does.
pub proof fn lemma_has_first_match(areas: Seq<(int, int, MapType, u8)>, start: int, end: Option<int>)
    requires
        has_match(areas, start, end),
    ensures
        exists|i: int| #[trigger] is_first_match(areas, i, start, end),
    decreases areas.len(),
{
    let j = choose|j: int| 0 <= j < areas.len() && area_matches(#[trigger] areas[j], start, end);
    if area_matches(areas[0], start, end) {
        assert(is_first_match(areas, 0, start, end));
    } else {
        let rest = areas.drop_first();
        assert(rest[j - 1] == areas[j]);
        lemma_has_first_match(rest, start, end);
        let k = choose|k: int| #[trigger] is_first_match(rest, k, start, end);
        assert forall|m: int| 0 <= m < k + 1 implies !area_matches(#[trigger] areas[m], start, end) by {
            if m > 0 {
                assert(areas[m] == rest[m - 1]);
            }
        }
        assert(areas[k + 1] == rest[k]);
        assert(is_first_match(areas, k + 1, start, end));
    }
}

/// What adding at most one area to `msb` in `mb`, giving `ms` in `m`, does to frames: only the
/// table's frames and frames that were free change, the table only takes free frames, and the
/// added area, if any, has frames that were free.
pub open spec fn pushed(msb: &MemorySet, mb: Memory, ms: &MemorySet, m: Memory) -> bool {
    &&& mb.phys.same_outside(&m.phys, ms.table().frame_set() + unallocated(mb))
    &&& msb.table().frame_set().subset_of(ms.table().frame_set())
    &&& forall|q: int| #[trigger] ms.table().frame_set().contains(q) && !msb.table().frame_set().contains(q) ==> !mb.allocated(q)
    &&& forall|q: int| #[trigger] mb.allocated(q) ==> m.allocated(q)
    &&& (ms.area_seq() == msb.area_seq() || (ms.area_seq() == msb.area_seq().push(ms.area_seq().last())
        && (ms.area_seq().last().kind() == MapType::Framed ==> forall|v: u64| ms.area_seq().last().has_page(v)
            ==> !mb.allocated(#[trigger] ms.area_seq().last().frames()[v].ppn.0 as int))))
}

/// Every frame of `ms`, table or area, was free in `mem0`, and only frames free in `mem0` changed
/// since.
pub open spec fn fresh_since(ms: &MemorySet, mem0: Memory, mem: Memory) -> bool {
    &&& mem0.phys.same_outside(&mem.phys, unallocated(mem0))
    &&& forall|q: int| #[trigger] ms.table().frame_set().contains(q) ==> !mem0.allocated(q)
    &&& forall|q: int| ms.holds_data_frame(q) ==> !mem0.allocated(q)
    &&& forall|q: int| #[trigger] mem0.allocated(q) ==> mem.allocated(q)
}

/// Adding at most one area keeps every frame of the space one that was free in `mem0`.
pub proof fn lemma_fresh_step(msb: &MemorySet, mb: Memory, ms: &MemorySet, m: Memory, mem0: Memory)
    requires
        fresh_since(msb, mem0, mb),
        pushed(msb, mb, ms, m),
    ensures
        fresh_since(ms, mem0, m),
{
    assert forall|q: int| #[trigger] ms.table().frame_set().contains(q) implies !mem0.allocated(q) by {
        if !msb.table().frame_set().contains(q) {
            assert(!mb.allocated(q));
        }
    }
    assert forall|q: int| ms.holds_data_frame(q) implies !mem0.allocated(q) by {
        let (i, v) = choose|i: int, v: u64| 0 <= i < ms.area_seq().len() && ms.area_seq()[i].kind() == MapType::Framed
            && ms.area_seq()[i].has_page(v) && #[trigger] ms.area_seq()[i].frames()[v].ppn.0 == q;
        if ms.area_seq() == msb.area_seq() {
            assert(msb.holds_data_frame(q));
        } else if i < msb.area_seq().len() {
            assert(ms.area_seq()[i] == msb.area_seq()[i]);
            assert(msb.holds_data_frame(q));
        } else {
            assert(ms.area_seq()[i] == ms.area_seq().last());
            assert(!mb.allocated(q));
        }
    }
    assert(ms.table().frame_set() + unallocated(mb) <= unallocated(mem0)) by {
        assert forall|q: int| #[trigger] (ms.table().frame_set() + unallocated(mb)).contains(q) implies unallocated(mem0).contains(q) by {}
    }
    lemma_same_outside_trans(&mem0.phys, &mb.phys, &m.phys, unallocated(mem0), ms.table().frame_set() + unallocated(mb), unallocated(mem0));
}

/// A new space, its root taken from the frames free in `mem0`, with tables grown from free frames
/// since, has only frames that were free in `mem0`.
proof fn lemma_fresh_base(ms: &MemorySet, mem0: Memory, mem1: Memory, mem2: Memory)
    requires
        ms.area_seq().len() == 0,
        !mem0.allocated(ms.table().root()),
        forall|q: int| #[trigger] mem1.allocated(q) == (mem0.allocated(q) || q == ms.table().root()),
        mem0.phys.same_outside(&mem1.phys, set![ms.table().root()]),
        forall|q: int| #[trigger] ms.table().frame_set().contains(q) ==> q == ms.table().root() || !mem1.allocated(q),
        forall|q: int| #[trigger] mem1.allocated(q) ==> mem2.allocated(q),
        mem1.phys.same_outside(&mem2.phys, ms.table().frame_set() + unallocated(mem1)),
    ensures
        fresh_since(ms, mem0, mem2),
{
    assert forall|q: int| #[trigger] (ms.table().frame_set() + unallocated(mem1)).contains(q) implies unallocated(mem0).contains(q) by {}
    assert(set![ms.table().root()].subset_of(unallocated(mem0)));
    lemma_same_outside_trans(&mem0.phys, &mem1.phys, &mem2.phys, set![ms.table().root()], ms.table().frame_set() + unallocated(mem1), unallocated(mem0));
    assert forall|q: int| #[trigger] ms.table().frame_set().contains(q) implies !mem0.allocated(q) by {}
    assert forall|q: int| ms.holds_data_frame(q) implies !mem0.allocated(q) by {}
    assert forall|q: int| #[trigger] mem0.allocated(q) implies mem2.allocated(q) by {
        assert(mem1.allocated(q));
    }
}

/// Page that holds the address halfway between `s` and `e`, taken to 39 bits.
pub open spec fn mid_page(s: u64, e: u64) -> u64 {
    (((s + e) / 2) % 0x80_0000_0000 / PAGE_SIZE as int) as u64
}

/// Through the table with root `root`, the middle pages of `.text` and `.rodata` of `layout` reach
/// entries that are not writable, and the middle page of `.data` one that is not executable.
pub open spec fn remap_ok(phys: PhysMem, root: int, layout: KernelLayout) -> bool {
    &&& translate_spec(phys, root, mid_page(layout.stext, layout.etext)) matches Some(e) && !e.writable_spec()
    &&& translate_spec(phys, root, mid_page(layout.srodata, layout.erodata)) matches Some(e) && !e.writable_spec()
    &&& translate_spec(phys, root, mid_page(layout.sdata, layout.edata)) matches Some(e) && !e.executable_spec()
}

/// Checks the kernel address space `kernel_space`, laid out for `layout`: whether the pages in the
/// middle of `.text` and of `.rodata` are mapped and not writable, and the page in the middle of
/// `.data` is mapped and not executable.
pub fn remap_test(kernel_space: &MemorySet, phys: &PhysMem, layout: KernelLayout) -> (r: bool)
    requires
        phys.wf(),
        layout.wf(),
    ensures
        r == remap_ok(*phys, kernel_space.table().root(), layout),
{
    let mid_text = VirtAddr::from_u64((layout.stext + layout.etext) / 2).floor();
    let mid_rodata = VirtAddr::from_u64((layout.srodata + layout.erodata) / 2).floor();
    let mid_data = VirtAddr::from_u64((layout.sdata + layout.edata) / 2).floor();
    let text_ok = match kernel_space.translate(phys, mid_text) {
        Some(e) => !e.writable(),
        None => false,
    };
    let rodata_ok = match kernel_space.translate(phys, mid_rodata) {
        Some(e) => !e.writable(),
        None => false,
    };
    let data_ok = match kernel_space.translate(phys, mid_data) {
        Some(e) => !e.executable(),
        None => false,
    };
    text_ok && rodata_ok && data_ok
}

/// The page in the middle of a non-empty section `[s, e)` below 2^39 lies in the pages that the
/// section's area covers.
proof fn lemma_mid_page_inside(s: u64, e: u64)
    requires
        s < e,
        e < 0x80_0000_0000,
    ensures
        floor_page(s as int) <= mid_page(s, e) < ceil_page(e as int),
{
    let m = (s + e) / 2;
    assert(s <= m < e);
    assert(m % 0x80_0000_0000 == m);
    assert(floor_page(s as int) <= floor_page(m as int)) by (nonlinear_arith)
        requires
            s <= m;
    assert(floor_page(m as int) < ceil_page(e as int)) by (nonlinear_arith)
        requires
            m < e,
            e > 0;
}

/// In a user address space, a valid entry of a page below the trampoline page maps the page to
/// a frame of one of its areas: a frame in memory, and never one of the page table's own frames.
pub proof fn lemma_user_page_frame(ms: &MemorySet, mem: Memory, v: u64)
    requires
        mem.wf(),
        ms.user_space_ok(mem),
        v < trampoline_vpn(),
        translate_spec(mem.phys, ms.table().root(), v) matches Some(e) && e.valid_spec(),
    ensures
        mem.phys.has_frame(translate_spec(mem.phys, ms.table().root(), v).unwrap().ppn_spec() as int),
        !ms.table().frame_set().contains(translate_spec(mem.phys, ms.table().root(), v).unwrap().ppn_spec() as int),
{
    let root = ms.table().root();
    let view = ms.view_in(mem.phys);
    crate::page_table::lemma_walk_key(mem.phys, root, v);
    lemma_small_key(v);
    lemma_small_key(trampoline_vpn());
    assert(view.contains_key(v));
    let areas = ms.areas_view();
    let i = choose|i: int| 0 <= i < areas.len() && key_in(v, areas[i].0, areas[i].1);
    lemma_key_in_small(v, areas[i]);
    let a = ms.area_seq()[i];
    assert(areas[i] == area_summary(a));
    assert(a.has_page(v));
    lemma_area_page_entry(ms, mem, i, v);
    assert(a.area_ok(&ms.table(), mem));
    assert(a.kind() == MapType::Framed);
    assert(mem.phys.has_frame(a.frames()[v].ppn.0 as int));
    lemma_area_entry_ppn(a.target(v), a.perm());
}

/// In a user address space, two pages below the trampoline page with valid entries map to
/// different frames.
pub proof fn lemma_user_pages_apart(ms: &MemorySet, mem: Memory, v: u64, w: u64)
    requires
        mem.wf(),
        ms.user_space_ok(mem),
        v < trampoline_vpn(),
        w < trampoline_vpn(),
        v != w,
        translate_spec(mem.phys, ms.table().root(), v) matches Some(e) && e.valid_spec(),
        translate_spec(mem.phys, ms.table().root(), w) matches Some(e) && e.valid_spec(),
    ensures
        translate_spec(mem.phys, ms.table().root(), v).unwrap().ppn_spec()
            != translate_spec(mem.phys, ms.table().root(), w).unwrap().ppn_spec(),
{
    let root = ms.table().root();
    let areas = ms.areas_view();
    crate::page_table::lemma_walk_key(mem.phys, root, v);
    crate::page_table::lemma_walk_key(mem.phys, root, w);
    lemma_small_key(v);
    lemma_small_key(w);
    lemma_user_page_area(ms, mem, v);
    lemma_user_page_area(ms, mem, w);
    let i = choose|i: int| 0 <= i < areas.len() && (#[trigger] areas[i]).2 == MapType::Framed && areas[i].0 <= v < areas[i].1;
    let j = choose|j: int| 0 <= j < areas.len() && (#[trigger] areas[j]).2 == MapType::Framed && areas[j].0 <= w < areas[j].1;
    let a = ms.area_seq()[i];
    let b = ms.area_seq()[j];
    assert(areas[i] == area_summary(a));
    assert(areas[j] == area_summary(b));
    assert(a.has_page(v));
    assert(b.has_page(w));
    lemma_area_page_entry(ms, mem, i, v);
    lemma_area_page_entry(ms, mem, j, w);
    assert(a.area_ok(&ms.table(), mem));
    assert(b.area_ok(&ms.table(), mem));
    assert(mem.phys.has_frame(a.frames()[v].ppn.0 as int));
    assert(mem.phys.has_frame(b.frames()[w].ppn.0 as int));
    lemma_area_entry_ppn(a.target(v), a.perm());
    lemma_area_entry_ppn(b.target(w), b.perm());
    if i == j {
        assert(a.frames()[v].ppn != a.frames()[w].ppn);
    } else {
        assert(a.frames()[v].ppn != b.frames()[w].ppn);
    }
}

/// In a user address space, a mapped page below the trampoline page lies in one of its areas,
/// and that area is framed.
pub proof fn lemma_user_page_area(ms: &MemorySet, mem: Memory, v: u64)
    requires
        ms.user_space_ok(mem),
        v < trampoline_vpn(),
        ms.view_in(mem.phys).contains_key(v),
    ensures
        exists|i: int| 0 <= i < ms.areas_view().len() && (#[trigger] ms.areas_view()[i]).2 == MapType::Framed
            && ms.areas_view()[i].0 <= v < ms.areas_view()[i].1,
{
    lemma_small_key(trampoline_vpn());
    let areas = ms.areas_view();
    let i = choose|i: int| 0 <= i < areas.len() && key_in(v, areas[i].0, areas[i].1);
    lemma_key_in_small(v, areas[i]);
    assert(areas[i].2 == MapType::Framed);
}

/// A page of an area of a well-formed address space reaches the area's entry for it.
pub proof fn lemma_area_page_entry(ms: &MemorySet, mem: Memory, i: int, v: u64)
    requires
        ms.wf(mem),
        0 <= i < ms.area_seq().len(),
        ms.area_seq()[i].has_page(v),
    ensures
        translate_spec(mem.phys, ms.table().root(), v) == Some(ms.area_seq()[i].entry_for(v)),
{
    assert(ms.area_seq()[i].area_ok(&ms.table(), mem));
    crate::page_table::lemma_walk_key(mem.phys, ms.table().root(), v);
}

/// In an address space with the areas that `new_kernel` lays out for `layout`, the code and the
/// read-only data cannot be written and the data cannot be executed, wherever these sections are
/// not empty: `remap_test` finds nothing wrong.
pub proof fn lemma_kernel_remap(ms: &MemorySet, mem: Memory, layout: KernelLayout)
    requires
        layout.wf(),
        ms.wf(mem),
        ms.areas_view() == layout.kernel_areas(),
        layout.stext < layout.etext,
        layout.srodata < layout.erodata,
        layout.sdata < layout.edata,
    ensures
        remap_ok(mem.phys, ms.table().root(), layout),
{
    let root = ms.table().root();
    let areas = ms.area_seq();
    assert(areas.len() == 5) by {
        assert(ms.areas_view().len() == areas.len());
    }
    assert((10u8 | 1u8) & 4u8 == 0u8 && (2u8 | 1u8) & 4u8 == 0u8 && (6u8 | 1u8) & 8u8 == 0u8) by (bit_vector);
    assert(ms.areas_view().len() == areas.len());
    assert(layout.kernel_areas().len() == 5);
    let t = mid_page(layout.stext, layout.etext);
    let ro = mid_page(layout.srodata, layout.erodata);
    let d = mid_page(layout.sdata, layout.edata);
    lemma_mid_page_inside(layout.stext, layout.etext);
    lemma_mid_page_inside(layout.srodata, layout.erodata);
    lemma_mid_page_inside(layout.sdata, layout.edata);
    assert(ms.areas_view()[0] == area_summary(areas[0]));
    assert(ms.areas_view()[1] == area_summary(areas[1]));
    assert(ms.areas_view()[2] == area_summary(areas[2]));
    lemma_area_page_entry(ms, mem, 0, t);
    lemma_area_page_entry(ms, mem, 1, ro);
    lemma_area_page_entry(ms, mem, 2, d);
    crate::page_table::lemma_pte_bits(areas[0].target(t), 10u8 | 1u8);
    crate::page_table::lemma_pte_bits(areas[1].target(ro), 2u8 | 1u8);
    crate::page_table::lemma_pte_bits(areas[2].target(d), 6u8 | 1u8);
}

} // verus!
