//! What the kernel keeps of a process, and the changes of it that system calls make: the program
//! break, a new program image, a copy for a child.
use vstd::prelude::*;
use crate::address::{PhysAddr, PhysPageNum, VirtAddr, VirtPageNum, floor_page, ceil_page};
use crate::config::{MAX_SYSCALL_NUM, PAGE_SIZE, TRAP_CONTEXT_BASE};
use crate::frame_allocator::Memory;
use crate::memory_set::{MemorySet, MapType, is_first_match, has_match, key_in, space_ok, trampoline_vpn,
    lemma_space_shrink, lemma_space_append, below_trampoline, elf_loadable, elf_areas, elf_entry, elf_ph_count,
    elf_last_end, stack_top, pages_of, fresh_since, unallocated, trap_area, areas_ok, segments_loaded, seg_loaded, seg_byte, elf_load_areas};
use crate::elf::{elf_program_header_of, header_accepted};
use crate::page_table::{vpn_key, translate_spec, PageTable};
use crate::phys_mem::{PhysMem, lemma_same_outside_refl};
use crate::trap::{app_init_context, app_context, fork_child_context, TRAP_WORDS, TRAP_A0, TRAP_KERNEL_SP};
use crate::id::{kernel_stack_spec, kernel_grown, kernel_stack_area, kernel_stack_mappable, kernel_stack_slots, kstack_alloc, pid_alloc, KernelStack, PidHandle, RecycleAllocator};

verus! {

/// Scheduling state of a task.
#[derive(Clone, Copy, PartialEq, Eq, Structural, Debug)]
pub enum TaskStatus {
    /// waiting for the processor
    Ready,
    /// on the processor
    Running,
    /// exited, waiting for its parent
    Zombie,
}

/// The state of a process that its system calls read and change.
pub struct TaskControlBlockInner {
    /// frame of the trap context
    pub trap_cx_ppn: PhysPageNum,
    /// top of the user stack when the program started
    pub base_size: u64,
    /// scheduling state
    pub task_status: TaskStatus,
    /// the user address space
    pub memory_set: MemorySet,
    /// identifier of the parent, if any
    pub parent: Option<u64>,
    /// identifiers of the children
    pub children: Vec<u64>,
    /// exit code, once exited
    pub exit_code: i32,
    /// start of the heap
    pub heap_bottom: u64,
    /// current program break
    pub program_brk: u64,
    /// scheduling priority
    pub priority: u64,
    /// stride of the stride scheduler
    pub stride: u64,
    /// number of calls of each system call
    pub syscall_times: Vec<u32>,
}

impl TaskControlBlockInner {
    /// The address space is a well-formed user space, the break is at or above the heap start
    /// and the call counts cover every system call number.
    pub open spec fn wf(&self, mem: Memory) -> bool {
        &&& self.memory_set.user_space_ok(mem)
        &&& self.heap_bottom <= self.program_brk
        &&& self.syscall_times@.len() == MAX_SYSCALL_NUM
    }

    /// The `satp` value of the process's address space.
    pub fn get_user_token(&self) -> (r: u64)
        ensures
            r == 0x8000_0000_0000_0000u64 | (self.memory_set.table().root() as u64),
    {
        self.memory_set.token()
    }

    /// Number of calls of system call `id`.
    pub fn get_syscall_times(&self, id: u64) -> (r: u32)
        requires
            id < self.syscall_times@.len(),
        ensures
            r == self.syscall_times@[id as int],
    {
        let n = self.syscall_times.len();
        proof {
            assert(id < n);
        }
        self.syscall_times[id as usize]
    }

    /// Takes the processes `orphans` as children after its own, as the first process does with
    /// the children of a process that exits; nothing else changes.
    pub fn adopt(&mut self, orphans: &Vec<u64>)
        ensures
            final(self).children@ == old(self).children@ + orphans@,
            *final(self) == (TaskControlBlockInner { children: final(self).children, ..*old(self) }),
    {
        let mut i: usize = 0;
        while i < orphans.len()
            invariant
                0 <= i <= orphans@.len(),
                self.children@ == old(self).children@ + orphans@.take(i as int),
                *self == (TaskControlBlockInner { children: self.children, ..*old(self) }),
            decreases orphans@.len() - i,
        {
            self.children.push(orphans[i]);
            proof {
                assert(orphans@.take(i + 1) == orphans@.take(i as int).push(orphans@[i as int]));
            }
            i = i + 1;
        }
        proof {
            assert(orphans@.take(i as int) == orphans@);
        }
    }

    /// Counts one more call of system call `id`, the count staying at its largest value once it
    /// gets there; numbers without a count are not counted.
    pub fn record_syscall(&mut self, id: u64)
        ensures
            final(self).syscall_times@ == if id < old(self).syscall_times@.len() {
                old(self).syscall_times@.update(id as int,
                    if old(self).syscall_times@[id as int] < u32::MAX { (old(self).syscall_times@[id as int] + 1) as u32 } else { u32::MAX })
            } else {
                old(self).syscall_times@
            },
            final(self).memory_set == old(self).memory_set,
            final(self).trap_cx_ppn == old(self).trap_cx_ppn,
            final(self).base_size == old(self).base_size,
            final(self).task_status == old(self).task_status,
            final(self).parent == old(self).parent,
            final(self).children == old(self).children,
            final(self).exit_code == old(self).exit_code,
            final(self).heap_bottom == old(self).heap_bottom,
            final(self).program_brk == old(self).program_brk,
            final(self).priority == old(self).priority,
            final(self).stride == old(self).stride,
    {
        let n = self.syscall_times.len();
        if id < n as u64 {
            let i = id as usize;
            let c = self.syscall_times[i];
            let next = if c < u32::MAX { c + 1 } else { c };
            self.syscall_times.set(i, next);
        }
    }

    /// Moves the program break by `size` bytes, ending the heap area (the first area that starts
    /// at the page of `heap_bottom`) at the page boundary at or above the new break. Returns the
    /// old break; a move by 0 bytes only reads it, and changes nothing, when there is a heap
    /// area. `None`, with nothing changed, when the new break would fall below the heap
    /// start or beyond the last page, when there is no heap area or the new end is outside it
    /// (shrinking) or meets a mapped page, another area or the trampoline (growing), or when a
    /// frame cannot be had.
    pub fn change_program_brk(&mut self, mem: &mut Memory, size: i32) -> (r: Option<u64>)
        requires
            old(self).wf(*old(mem)),
            old(mem).wf(),
        ensures
            final(self).wf(*final(mem)),
            final(mem).wf(),
            final(self).heap_bottom == old(self).heap_bottom,
            final(self).syscall_times == old(self).syscall_times,
            r is Some ==> r == Some(old(self).program_brk) && final(self).program_brk == old(self).program_brk + size,
            r is Some && size != 0 ==> brk_moved(old(self).memory_set.areas_view(), final(self).memory_set.areas_view(),
                old(self).heap_bottom as int, old(self).program_brk + size),
            size == 0 ==> (r is Some <==> has_match(old(self).memory_set.areas_view(), floor_page(old(self).heap_bottom as int), None)),
            size == 0 ==> *final(self) == *old(self) && *final(mem) == *old(mem),
            old(mem).phys.same_outside(&final(mem).phys, final(self).memory_set.table().frame_set() + unallocated(*old(mem))),
            r is Some && size > 0 ==> forall|i: int| #[trigger] is_first_match(old(self).memory_set.areas_view(), i, floor_page(old(self).heap_bottom as int), None)
                ==> final(self).memory_set.area_seq()[i].zeroed_between(final(mem).phys, old(self).memory_set.areas_view()[i].1, ceil_page(old(self).program_brk + size)),
            r is None ==> final(self).program_brk == old(self).program_brk
                && final(self).memory_set.areas_view() == old(self).memory_set.areas_view()
                && final(self).memory_set.view_in(final(mem).phys) == old(self).memory_set.view_in(old(mem).phys),
            old(self).program_brk + size < old(self).heap_bottom ==> r is None,
            !has_match(old(self).memory_set.areas_view(), floor_page(old(self).heap_bottom as int), None) ==> r is None,
            size >= 0 && old(self).program_brk + size <= u64::MAX - PAGE_SIZE + 1 ==> forall|i: int|
                #[trigger] is_first_match(old(self).memory_set.areas_view(), i, floor_page(old(self).heap_bottom as int), None)
                    && brk_growth_ok(*old(self), *old(mem), size as int, i) ==> r is Some,
            size < 0 && old(self).program_brk + size >= old(self).heap_bottom ==> forall|i: int|
                #[trigger] is_first_match(old(self).memory_set.areas_view(), i, floor_page(old(self).heap_bottom as int), None)
                ==> (r is Some <==> old(self).memory_set.areas_view()[i].0 <= ceil_page(old(self).program_brk + size) <= old(self).memory_set.areas_view()[i].1),
    {
        let ghost mem0 = *mem;
        let ghost areas0 = self.memory_set.areas_view();
        let ghost view0 = self.memory_set.view_in(mem.phys);
        let old_break = self.program_brk;
        if size == 0 {
            let start_page = VirtAddr(self.heap_bottom).floor();
            return match self.memory_set.area_bounds(start_page) {
                None => None,
                Some(_) => Some(old_break),
            };
        }
        let new_brk_i: i128 = old_break as i128 + size as i128;
        if new_brk_i < self.heap_bottom as i128 || new_brk_i > (u64::MAX - PAGE_SIZE + 1) as i128 {
            return None;
        }
        let new_brk = new_brk_i as u64;
        let start_page = VirtAddr(self.heap_bottom).floor();
        let (i, s, e) = match self.memory_set.area_bounds(start_page) {
            None => return None,
            Some(b) => b,
        };
        let ne = VirtAddr(new_brk).ceil();
        proof {
            crate::memory_set::lemma_first_match_unique(areas0, i as int, start_page.0 as int, None);
            assert(ceil_page(old(self).program_brk + size) == ne.0);
        }
        if size < 0 {
            if ne.0 < s.0 || ne.0 > e.0 {
                return None;
            }
            let ok = self.memory_set.shrink_to(mem, VirtAddr(self.heap_bottom), VirtAddr(new_brk));
            proof {
                assert(ok);
                lemma_same_outside_wider(&mem0.phys, &mem.phys, self.memory_set.table().frame_set(),
                    self.memory_set.table().frame_set() + unallocated(mem0));
                lemma_space_shrink(areas0, view0, i as int, ne.0 as int, self.memory_set.view_in(mem.phys));
            }
            self.program_brk = new_brk;
            return Some(old_break);
        }
        if ne.0 < e.0 || ne.0 > 0x7ff_ffff || ne.0 - s.0 > 0x800_0000 {
            return None;
        }
        if !self.memory_set.range_free(&mem.phys, e, ne) || self.memory_set.is_overlap_except(i, s, ne) {
            return None;
        }
        let ghost ms0 = self.memory_set;
        let ok = self.memory_set.append_to(mem, VirtAddr(self.heap_bottom), VirtAddr(new_brk));
        proof {
            let view1 = self.memory_set.view_in(mem.phys);
            if ok {
                let areas1 = self.memory_set.areas_view();
                assert(areas1[i as int] == (s.0 as int, ne.0 as int, areas0[i as int].2, areas0[i as int].3));
                let a = self.memory_set.area_seq()[i as int];
                assert(self.memory_set.wf(*mem));
                assert(self.memory_set.areas_view().len() == self.memory_set.area_seq().len());
                assert(0 <= i < self.memory_set.area_seq().len());
                assert(crate::memory_set::area_summary(a) == areas1[i as int]);
                assert(a.area_ok(&self.memory_set.table(), *mem));
                assert forall|k: u64| #[trigger] view1.contains_key(k) <==> view0.contains_key(k) || key_in(k, e.0 as int, ne.0 as int) by {
                    if key_in(k, e.0 as int, ne.0 as int) {
                        let w = choose|w: u64| e.0 <= w < ne.0 && #[trigger] vpn_key(w) == k;
                        assert(a.has_page(w));
                    }
                }
                assert forall|j: int| 0 <= j < areas0.len() && j != i implies !(#[trigger] areas0[j].0 < ne.0 && areas0[i as int].0 < areas0[j].1) by {}
                lemma_space_append(areas0, view0, i as int, ne.0 as int, view1);
            } else {
                assert(ms0.wf(mem0));
            }
        }
        if ok {
            self.program_brk = new_brk;
            Some(old_break)
        } else {
            None
        }
    }
}

/// The heap area `i` of `t` can grow to the page boundary at or above the break moved by `size`
/// bytes, in memory `mem`: that end is at or past the area's end and at or below the trap context
/// page, the area stays within 2^27 pages, none of its new pages is mapped or in another area, and
/// three frames per new page are free.
pub open spec fn brk_growth_ok(t: TaskControlBlockInner, mem: Memory, size: int, i: int) -> bool {
    let a = t.memory_set.areas_view();
    let ne = ceil_page(t.program_brk + size);
    &&& a[i].1 <= ne <= 0x7ff_ffff
    &&& ne - a[i].0 <= 0x800_0000
    &&& forall|v: u64| a[i].1 <= v < ne ==> !t.memory_set.view_in(mem.phys).contains_key(#[trigger] vpn_key(v))
    &&& forall|j: int| 0 <= j < a.len() && j != i ==> !(#[trigger] a[j].0 < ne && a[j].1 > a[i].0)
    &&& mem.allocator.free_count() >= 3 * (ne - a[i].1)
}

/// The heap area, the first area of `areas0` that starts at the page of `heap_bottom`, now ends at
/// the page boundary at or above `brk`, in `areas1`; nothing else changed.
pub open spec fn brk_moved(areas0: Seq<(int, int, MapType, u8)>, areas1: Seq<(int, int, MapType, u8)>, heap_bottom: int, brk: int) -> bool {
    exists|i: int| #[trigger] is_first_match(areas0, i, floor_page(heap_bottom), None)
        && areas1 == areas0.update(i, (areas0[i].0, ceil_page(brk), areas0[i].2, areas0[i].3))
}

/// Moving the break up by `size` with `change_program_brk` and back down by as much gives back the
/// areas of before, when the heap area ended at the page boundary at or above the break.
pub proof fn lemma_brk_there_and_back(areas0: Seq<(int, int, MapType, u8)>, areas1: Seq<(int, int, MapType, u8)>,
    areas2: Seq<(int, int, MapType, u8)>, heap_bottom: int, brk: int, size: int)
    requires
        brk_moved(areas0, areas1, heap_bottom, brk + size),
        brk_moved(areas1, areas2, heap_bottom, brk),
        forall|i: int| #[trigger] is_first_match(areas0, i, floor_page(heap_bottom), None) ==> areas0[i].1 == ceil_page(brk),
    ensures
        areas2 == areas0,
{
    let i = choose|i: int| #[trigger] is_first_match(areas0, i, floor_page(heap_bottom), None)
        && areas1 == areas0.update(i, (areas0[i].0, ceil_page(brk + size), areas0[i].2, areas0[i].3));
    let j = choose|j: int| #[trigger] is_first_match(areas1, j, floor_page(heap_bottom), None)
        && areas2 == areas1.update(j, (areas1[j].0, ceil_page(brk), areas1[j].2, areas1[j].3));
    assert(is_first_match(areas1, i, floor_page(heap_bottom), None)) by {
        assert forall|k: int| 0 <= k < i implies !crate::memory_set::area_matches(#[trigger] areas1[k], floor_page(heap_bottom), None) by {
            assert(areas1[k] == areas0[k]);
        }
    }
    crate::memory_set::lemma_first_match_unique(areas1, i, floor_page(heap_bottom), None);
    assert(j == i);
    assert(areas2 =~= areas0);
}

/// Page number of the trap context page, just below the trampoline.
pub open spec fn trap_cx_vpn() -> u64 {
    0x7ff_fffe
}

/// Frame that the trap context page of `ms` maps to, when its walk reaches an entry.
pub fn trap_cx_frame(ms: &MemorySet, phys: &PhysMem) -> (r: Option<PhysPageNum>)
    requires
        phys.wf(),
    ensures
        match translate_spec(*phys, ms.table().root(), trap_cx_vpn()) {
            Some(e) => r == Some(PhysPageNum(e.ppn_spec())),
            None => r is None,
        },
{
    let vpn = VirtAddr::from_u64(TRAP_CONTEXT_BASE).floor();
    proof {
        assert(vpn.0 == trap_cx_vpn());
    }
    match ms.translate(phys, vpn) {
        Some(pte) => Some(pte.ppn()),
        None => None,
    }
}

/// In an address space laid out for the ELF file `data`, the trap context page is mapped.
proof fn lemma_trap_page_mapped(ms: &MemorySet, mem: Memory, data: Seq<u8>)
    requires
        mem.wf(),
        ms.wf(mem),
        elf_loadable(data),
        ms.areas_view() == elf_areas(data),
    ensures
        translate_spec(mem.phys, ms.table().root(), trap_cx_vpn()) is Some,
        ({
            let n = ms.area_seq().len() - 1;
            &&& n >= elf_load_areas(data, elf_ph_count(data)).len()
            &&& ms.area_seq()[n].kind() == MapType::Framed
            &&& ms.area_seq()[n].has_page(trap_cx_vpn())
            &&& translate_spec(mem.phys, ms.table().root(), trap_cx_vpn()).unwrap().ppn_spec()
                == ms.area_seq()[n].frames()[trap_cx_vpn()].ppn.0
        }),
{
    let n = ms.areas_view().len() - 1;
    assert(ms.areas_view()[n] == trap_area());
    let a = ms.area_seq()[n];
    assert(a.area_ok(&ms.table(), mem));
    assert(a.has_page(trap_cx_vpn()));
    crate::page_table::lemma_walk_key(mem.phys, ms.table().root(), trap_cx_vpn());
    let f = a.frames()[trap_cx_vpn()].ppn.0;
    assert(mem.phys.has_frame(f as int));
    crate::memory_set::lemma_area_entry_ppn(f, a.perm());
}

/// Writes into the trap context frame `frame` of the user space `ms`, made for the ELF file
/// `data`, the context `app_context` of a program starting at `entry` with stack pointer `sp`.
/// Only that frame, which the space holds, changes: the mappings of `ms` and of the kernel space
/// `ks`, and the loaded segments, stay.
fn put_start_context(ms: &MemorySet, ks: &MemorySet, mem: &mut Memory, frame: PhysPageNum, entry: u64, sp: u64,
    sstatus: u64, kernel_satp: u64, kernel_sp: u64, trap_handler: u64, Ghost(data): Ghost<Seq<u8>>)
    requires
        old(mem).wf(),
        ms.user_space_ok(*old(mem)),
        ks.wf(*old(mem)),
        spaces_apart(ms, ks),
        elf_loadable(data),
        ms.areas_view() == elf_areas(data),
        translate_spec(old(mem).phys, ms.table().root(), trap_cx_vpn()) matches Some(e) && frame.0 == e.ppn_spec(),
    ensures
        final(mem).wf(),
        final(mem).allocator == old(mem).allocator,
        ms.user_space_ok(*final(mem)),
        ms.view_in(final(mem).phys) == ms.view_in(old(mem).phys),
        forall|k: u64| #[trigger] translate_spec(final(mem).phys, ms.table().root(), k) == translate_spec(old(mem).phys, ms.table().root(), k),
        ks.wf(*final(mem)),
        ks.view_in(final(mem).phys) == ks.view_in(old(mem).phys),
        owns_frame(ms, frame.0 as int),
        old(mem).phys.same_outside(&final(mem).phys, set![frame.0 as int]),
        segments_loaded(ms.area_seq(), old(mem).phys, data, elf_ph_count(data))
            ==> segments_loaded(ms.area_seq(), final(mem).phys, data, elf_ph_count(data)),
        forall|j: int| 0 <= j < TRAP_WORDS ==> #[trigger] final(mem).phys.word(frame.0 as int, j)
            == app_context(entry, sp, sstatus, kernel_satp, kernel_sp, trap_handler)[j],
{
    let ghost m0 = *mem;
    let ghost n = ms.area_seq().len() - 1;
    let ghost f = frame.0 as int;
    proof {
        lemma_trap_page_mapped(ms, m0, data);
        let a = ms.area_seq()[n];
        assert(a.area_ok(&ms.table(), m0));
        assert(m0.phys.has_frame(f));
        assert(ms.holds_data_frame(f));
        assert(owns_frame(ms, f));
        assert(!owns_frame(ks, f));
        assert forall|q: int| #[trigger] ms.table().frame_set().contains(q) implies !set![f].contains(q) by {}
        assert forall|q: int| #[trigger] ks.table().frame_set().contains(q) implies !set![f].contains(q) by {
            assert(owns_frame(ks, q));
        }
    }
    app_init_context(&mut mem.phys, frame, entry, sp, sstatus, kernel_satp, kernel_sp, trap_handler);
    proof {
        Memory::lemma_wf_bytes_changed(m0, *mem);
        lemma_space_kept_apart(ms, m0, *mem, set![f]);
        lemma_space_kept_apart(ks, m0, *mem, set![f]);
        if segments_loaded(ms.area_seq(), m0.phys, data, elf_ph_count(data)) {
            crate::memory_set::lemma_loaded_other_frame(ms, m0, *mem, n, trap_cx_vpn(), data, elf_ph_count(data));
        }
    }
}

/// Two mappings that agree with the same areas have the same keys.
proof fn lemma_same_keys(areas: Seq<(int, int, MapType, u8)>, view0: Map<u64, crate::page_table::PageTableEntry>,
    view1: Map<u64, crate::page_table::PageTableEntry>, k: u64)
    requires
        space_ok(areas, view0),
        space_ok(areas, view1),
    ensures
        view0.contains_key(k) == view1.contains_key(k),
{
}

/// Frame `q` belongs to the address space `ms`: a node of its table or a frame of one of its
/// areas.
pub open spec fn owns_frame(ms: &MemorySet, q: int) -> bool {
    ms.table().frame_set().contains(q) || ms.holds_data_frame(q)
}

/// The address spaces `a` and `b` own no frame in common.
pub open spec fn spaces_apart(a: &MemorySet, b: &MemorySet) -> bool {
    forall|q: int| #![trigger owns_frame(a, q)] #![trigger owns_frame(b, q)] !(owns_frame(a, q) && owns_frame(b, q))
}

/// Every frame that a well-formed address space owns is handed out.
pub proof fn lemma_owned_allocated(ms: &MemorySet, mem: Memory)
    requires
        ms.wf(mem),
    ensures
        forall|q: int| #[trigger] owns_frame(ms, q) ==> mem.allocated(q),
{
    ms.table().lemma_frames_allocated(mem);
    assert forall|q: int| #[trigger] owns_frame(ms, q) implies mem.allocated(q) by {
        if ms.holds_data_frame(q) {
            let (i, v) = choose|i: int, v: u64| 0 <= i < ms.area_seq().len() && ms.area_seq()[i].kind() == MapType::Framed
                && ms.area_seq()[i].has_page(v) && #[trigger] ms.area_seq()[i].frames()[v].ppn.0 == q;
            assert(ms.area_seq()[i].area_ok(&ms.table(), mem));
        }
    }
}

/// An address space stays well formed, with the same mappings, when memory changes only in frames
/// that were free and every frame it owns stays handed out.
pub proof fn lemma_space_survives(ms: &MemorySet, m0: Memory, m1: Memory)
    requires
        ms.wf(m0),
        m1.wf(),
        m0.phys.same_outside(&m1.phys, unallocated(m0)),
        forall|q: int| #[trigger] owns_frame(ms, q) ==> m1.allocated(q),
    ensures
        ms.wf(m1),
        ms.view_in(m1.phys) == ms.view_in(m0.phys),
        forall|k: u64| #[trigger] translate_spec(m1.phys, ms.table().root(), k) == translate_spec(m0.phys, ms.table().root(), k),
{
    ms.table().lemma_frames_allocated(m0);
    assert forall|q: int| #[trigger] ms.table().frame_set().contains(q) implies m1.allocated(q) by {
        assert(owns_frame(ms, q));
    }
    ms.table().lemma_frame_local(m0, m1, unallocated(m0));
    let areas = ms.area_seq();
    let pt = ms.table();
    assert forall|i: int| 0 <= i < areas.len() implies #[trigger] areas[i].area_ok(&pt, m1) by {
        let a = areas[i];
        assert(a.area_ok(&pt, m0));
        if a.kind() == MapType::Framed {
            assert forall|v: u64| a.start() <= v < a.end() implies {
                &&& m1.allocated(#[trigger] a.frames()[v].ppn.0 as int)
                &&& m1.phys.has_frame(a.frames()[v].ppn.0 as int)
                &&& !pt.frame_set().contains(a.frames()[v].ppn.0 as int)
            } by {
                assert(a.has_page(v));
                assert(ms.holds_data_frame(a.frames()[v].ppn.0 as int));
                assert(owns_frame(ms, a.frames()[v].ppn.0 as int));
            }
        }
    }
}

/// An address space stays well formed, with the same mappings, when memory changes only in the
/// frames `s`, none of which is a node of its table, and hands out no fewer frames.
pub proof fn lemma_space_kept_apart(ms: &MemorySet, m0: Memory, m1: Memory, s: Set<int>)
    requires
        ms.wf(m0),
        m1.wf(),
        m0.phys.same_outside(&m1.phys, s),
        forall|q: int| #[trigger] ms.table().frame_set().contains(q) ==> !s.contains(q),
        forall|q: int| #[trigger] m0.allocated(q) ==> m1.allocated(q),
    ensures
        ms.wf(m1),
        ms.view_in(m1.phys) == ms.view_in(m0.phys),
        forall|k: u64| #[trigger] translate_spec(m1.phys, ms.table().root(), k) == translate_spec(m0.phys, ms.table().root(), k),
{
    ms.table().lemma_frames_allocated(m0);
    assert(s.disjoint(ms.table().frame_set()));
    ms.table().lemma_frame_local(m0, m1, s);
    crate::memory_set::lemma_areas_grow(ms.area_seq(), &ms.table(), m0, &ms.table(), m1);
}

/// Memory that stays the same outside `s1` stays the same outside any set that holds `s1`.
proof fn lemma_same_outside_wider(m0: &PhysMem, m1: &PhysMem, s1: Set<int>, s: Set<int>)
    requires
        m0.same_outside(m1, s1),
        s1.subset_of(s),
    ensures
        m0.same_outside(m1, s),
{
    lemma_same_outside_refl(m1, s);
    crate::phys_mem::lemma_same_outside_trans(m0, m1, m1, s1, s, s);
}

/// Gives back every frame of `ms`; the address space `keep`, which owns none of them, stays as it
/// was.
fn discard_space(ms: MemorySet, keep: &MemorySet, mem: &mut Memory)
    requires
        old(mem).wf(),
        ms.wf(*old(mem)),
        keep.wf(*old(mem)),
        spaces_apart(&ms, keep),
    ensures
        final(mem).wf(),
        final(mem).phys == old(mem).phys,
        final(mem).allocator.free_count() >= old(mem).allocator.free_count(),
        keep.wf(*final(mem)),
        keep.view_in(final(mem).phys) == keep.view_in(old(mem).phys),
        forall|q: int| #[trigger] final(mem).allocated(q) == (old(mem).allocated(q) && !owns_frame(&ms, q)),
{
    let ghost mem1 = *mem;
    let ghost ms1 = ms;
    ms.release(mem);
    proof {
        assert forall|q: int| #[trigger] mem.allocated(q) == (mem1.allocated(q) && !owns_frame(&ms1, q)) by {}
        lemma_owned_allocated(keep, mem1);
        assert forall|q: int| #[trigger] owns_frame(keep, q) implies mem.allocated(q) by {
            assert(!owns_frame(&ms1, q));
        }
        lemma_same_outside_refl(&mem1.phys, unallocated(mem1));
        lemma_space_survives(keep, mem1, *mem);
    }
}

/// A vector of `n` zero counts.
fn zero_counts(n: usize) -> (r: Vec<u32>)
    ensures
        r@ == Seq::new(n as nat, |i: int| 0u32),
{
    let mut v: Vec<u32> = Vec::new();
    let mut i: usize = 0;
    while i < n
        invariant
            0 <= i <= n,
            v@ == Seq::new(i as nat, |j: int| 0u32),
        decreases n - i,
    {
        v.push(0);
        proof {
            assert(v@ =~= Seq::new((i + 1) as nat, |j: int| 0u32));
        }
        i = i + 1;
    }
    v
}

/// Fork isolation: a child made by `fork` and its parent own no frame in common
/// (`spaces_apart`), so changing the bytes of a frame that the parent owns, as a write of the
/// parent through its own table does, leaves the child's mapping, and the bytes of every page of
/// the child's areas, as they were.
pub proof fn lemma_fork_isolated(child: &MemorySet, parent: &MemorySet, m: Memory, m1: Memory, p: int)
    requires
        child.wf(m),
        spaces_apart(child, parent),
        owns_frame(parent, p),
        m1.allocator == m.allocator,
        m.phys.same_outside(&m1.phys, set![p]),
    ensures
        child.view_in(m1.phys) == child.view_in(m.phys),
        forall|i: int, v: u64, off: int|
            0 <= i < child.area_seq().len() && child.area_seq()[i].kind() == MapType::Framed
                && child.area_seq()[i].has_page(v) && 0 <= off < PAGE_SIZE ==> #[trigger] m1.phys.byte(
                child.area_seq()[i].frames()[v].ppn.0 as int, off) == m.phys.byte(child.area_seq()[i].frames()[v].ppn.0 as int, off),
{
    assert(!owns_frame(child, p));
    child.table().lemma_frames_allocated(m);
    assert(set![p].disjoint(child.table().frame_set()));
    child.table().lemma_frame_local(m, m1, set![p]);
    assert forall|i: int, v: u64, off: int|
        0 <= i < child.area_seq().len() && child.area_seq()[i].kind() == MapType::Framed
            && child.area_seq()[i].has_page(v) && 0 <= off < PAGE_SIZE implies #[trigger] m1.phys.byte(
            child.area_seq()[i].frames()[v].ppn.0 as int, off) == m.phys.byte(child.area_seq()[i].frames()[v].ppn.0 as int, off) by {
        let f = child.area_seq()[i].frames()[v].ppn.0 as int;
        assert(child.area_seq()[i].area_ok(&child.table(), m));
        assert(m.phys.has_frame(f));
        assert(child.holds_data_frame(f));
    }
}

/// The loaded segments of `ms` stay loaded when only frames of `s`, none of which `ms` owns,
/// change.
pub proof fn lemma_loaded_survives(ms: &MemorySet, m0: Memory, m1: Memory, s: Set<int>, data: Seq<u8>, n: nat)
    requires
        ms.wf(m0),
        m0.phys.same_outside(&m1.phys, s),
        forall|q: int| #[trigger] owns_frame(ms, q) ==> !s.contains(q),
        segments_loaded(ms.area_seq(), m0.phys, data, n),
    ensures
        segments_loaded(ms.area_seq(), m1.phys, data, n),
{
    reveal(segments_loaded);
    let areas = ms.area_seq();
    assert forall|i: u16| i < n && (#[trigger] elf_program_header_of(data, i)).1 implies
        seg_loaded(areas[elf_load_areas(data, i as nat).len() as int], m1.phys, data, elf_program_header_of(data, i)) by {
        let j = elf_load_areas(data, i as nat).len() as int;
        let a = areas[j];
        let seg = elf_program_header_of(data, i);
        assert(a.area_ok(&ms.table(), m0));
        assert forall|pj: int, off: int| 0 <= pj < a.end() - a.start() && 0 <= off < PAGE_SIZE
            implies #[trigger] m1.phys.byte(a.frames()[(a.start() + pj) as u64].ppn.0 as int, off) == seg_byte(data, seg, pj, off) by {
            let v = (a.start() + pj) as u64;
            let f = a.frames()[v].ppn.0 as int;
            assert(a.has_page(v));
            assert(m0.phys.has_frame(f));
            assert(ms.holds_data_frame(f));
            assert(owns_frame(ms, f));
            assert(m0.phys.byte(f, off) == seg_byte(data, seg, pj, off));
        }
    }
}

/// A well-formed address space `ms` that owns no frame of the kernel address space `ks0` stays
/// well formed, with the same mappings and apart from it, while the kernel address space grows
/// into `ks`.
pub proof fn lemma_beside_kernel(ms: &MemorySet, ks0: &MemorySet, m1: Memory, ks: &MemorySet, m2: Memory)
    requires
        ms.wf(m1),
        ks0.wf(m1),
        spaces_apart(ms, ks0),
        m2.wf(),
        kernel_grown(ks0, m1, ks, m2),
    ensures
        ms.wf(m2),
        ms.view_in(m2.phys) == ms.view_in(m1.phys),
        spaces_apart(ms, ks),
        forall|k: u64| #[trigger] translate_spec(m2.phys, ms.table().root(), k) == translate_spec(m1.phys, ms.table().root(), k),
        forall|q: int| #[trigger] owns_frame(ms, q) ==> !(ks.table().frame_set() + unallocated(m1)).contains(q),
{
    lemma_owned_allocated(ms, m1);
    lemma_owned_allocated(ks0, m1);
    let s = ks.table().frame_set() + unallocated(m1);
    assert forall|q: int| #[trigger] owns_frame(ms, q) implies !s.contains(q) by {
        if ks0.table().frame_set().contains(q) {
            assert(owns_frame(ks0, q));
        }
    }
    assert forall|q: int| #[trigger] ms.table().frame_set().contains(q) implies !s.contains(q) by {
        assert(owns_frame(ms, q));
        if ks0.table().frame_set().contains(q) {
            assert(owns_frame(ks0, q));
        }
    }
    lemma_space_kept_apart(ms, m1, m2, s);
    assert forall|q: int| !(owns_frame(ms, q) && owns_frame(ks, q)) by {
        if owns_frame(ms, q) && owns_frame(ks, q) {
            assert(m1.allocated(q));
            if ks0.table().frame_set().contains(q) || ks0.holds_data_frame(q) {
                assert(owns_frame(ks0, q));
            }
        }
    }
}

impl TaskControlBlockInner {
    /// Replaces the program of the process by the one in the ELF file `elf_data`: a new address
    /// space built by `MemorySet::from_elf` (the trampoline mapped to `strampoline`), whose trap
    /// context frame and stack top the process records; the old address space gives back all its
    /// frames. Returns the entry point and the stack top. The file's header must be one that
    /// `xmas_elf` accepts. `None`, with nothing of the process changed, when the rest of the file
    /// is not one the loader accepts or frames run out.
    pub fn exec(&mut self, mem: &mut Memory, elf_data: &[u8], strampoline: PhysAddr) -> (r: Option<(u64, u64)>)
        requires
            old(self).wf(*old(mem)),
            old(mem).wf(),
            header_accepted(elf_data@),
            strampoline.0 % PAGE_SIZE == 0,
        ensures
            final(mem).wf(),
            final(self).wf(*final(mem)),
            old(mem).phys.same_outside(&final(mem).phys, unallocated(*old(mem))),
            forall|q: int| old(mem).allocated(q) && !owns_frame(&old(self).memory_set, q) ==> #[trigger] final(mem).allocated(q),
            r is Some ==> elf_loadable(elf_data@),
            elf_loadable(elf_data@) && old(mem).allocator.free_count() >= 3 + 3 * pages_of(elf_areas(elf_data@)) ==> r is Some,
            r matches Some((entry, sp)) ==> {
                &&& final(self).memory_set.areas_view() == elf_areas(elf_data@)
                &&& entry == elf_entry(elf_data@)
                &&& sp == stack_top(elf_last_end(elf_data@, elf_ph_count(elf_data@)))
                &&& final(self).base_size == sp
                &&& translate_spec(final(mem).phys, final(self).memory_set.table().root(), trap_cx_vpn()) matches Some(e)
                    && final(self).trap_cx_ppn.0 == e.ppn_spec()
                &&& forall|q: int| #[trigger] owns_frame(&final(self).memory_set, q) ==> !old(mem).allocated(q)
                &&& forall|q: int| #[trigger] owns_frame(&old(self).memory_set, q) ==> !final(mem).allocated(q)
                &&& segments_loaded(final(self).memory_set.area_seq(), final(mem).phys, elf_data@, elf_ph_count(elf_data@))
                &&& final(mem).allocator.free_count() >= old(mem).allocator.free_count() - 3 - 3 * pages_of(elf_areas(elf_data@))
            },
            r is None ==> final(self).memory_set == old(self).memory_set && final(self).trap_cx_ppn == old(self).trap_cx_ppn
                && final(self).base_size == old(self).base_size
                && final(self).memory_set.view_in(final(mem).phys) == old(self).memory_set.view_in(old(mem).phys)
                && forall|q: int| #[trigger] old(mem).allocated(q) ==> final(mem).allocated(q),
            final(self).heap_bottom == old(self).heap_bottom,
            final(self).program_brk == old(self).program_brk,
            final(self).task_status == old(self).task_status,
            final(self).parent == old(self).parent,
            final(self).children == old(self).children,
            final(self).exit_code == old(self).exit_code,
            final(self).priority == old(self).priority,
            final(self).stride == old(self).stride,
            final(self).syscall_times == old(self).syscall_times,
    {
        let ghost mem0 = *mem;
        let ghost ms0 = self.memory_set;
        proof {
            lemma_owned_allocated(&ms0, mem0);
        }
        match MemorySet::from_elf(mem, elf_data, strampoline) {
            None => {
                proof {
                    lemma_space_survives(&ms0, mem0, *mem);
                }
                None
            },
            Some((memory_set, user_sp, entry_point)) => {
                let ghost mem1 = *mem;
                proof {
                    lemma_space_survives(&ms0, mem0, mem1);
                    lemma_trap_page_mapped(&memory_set, mem1, elf_data@);
                    assert forall|q: int| !(owns_frame(&ms0, q) && owns_frame(&memory_set, q)) by {}
                }
                let trap = trap_cx_frame(&memory_set, &mem.phys).unwrap();
                let mut old_ms = memory_set;
                std::mem::swap(&mut old_ms, &mut self.memory_set);
                discard_space(old_ms, &self.memory_set, mem);
                self.trap_cx_ppn = trap;
                self.base_size = user_sp;
                Some((entry_point, user_sp))
            },
        }
    }

    /// The state of a child of this process: a copy of its address space made by
    /// `MemorySet::from_existed_user` (the trampoline mapped to `strampoline`), the trap context
    /// frame of the copy, this process's stack top, heap start and break, no children, no parent
    /// yet, ready, priority 16, no call counted. `None`, with every frame taken given back, when
    /// frames run out or the copy has no trap context page.
    pub fn fork(&self, mem: &mut Memory, strampoline: PhysAddr) -> (r: Option<TaskControlBlockInner>)
        requires
            self.wf(*old(mem)),
            old(mem).wf(),
            strampoline.0 % PAGE_SIZE == 0,
        ensures
            final(mem).wf(),
            self.wf(*final(mem)),
            self.memory_set.view_in(final(mem).phys) == self.memory_set.view_in(old(mem).phys),
            old(mem).phys.same_outside(&final(mem).phys, unallocated(*old(mem))),
            forall|q: int| #[trigger] old(mem).allocated(q) ==> final(mem).allocated(q),
            old(mem).allocator.free_count() >= 3 + 3 * pages_of(self.memory_set.areas_view())
                && self.memory_set.view_in(old(mem).phys).contains_key(vpn_key(trap_cx_vpn())) ==> r is Some,
            r is Some ==> final(mem).allocator.free_count() >= old(mem).allocator.free_count() - 3 - 3 * pages_of(self.memory_set.areas_view()),
            r matches Some(child) ==> {
                &&& child.wf(*final(mem))
                &&& forall|q: int| #[trigger] owns_frame(&child.memory_set, q) ==> !old(mem).allocated(q)
                &&& child.memory_set.areas_view() == self.memory_set.areas_view()
                &&& forall|i: int, v: u64, off: int|
                    0 <= i < child.memory_set.area_seq().len() && child.memory_set.area_seq()[i].kind() == MapType::Framed
                        && child.memory_set.area_seq()[i].has_page(v) && 0 <= off < PAGE_SIZE ==> #[trigger] final(mem).phys.byte(
                        child.memory_set.area_seq()[i].frames()[v].ppn.0 as int, off)
                        == old(mem).phys.byte(self.memory_set.area_seq()[i].frames()[v].ppn.0 as int, off)
                &&& translate_spec(final(mem).phys, child.memory_set.table().root(), trap_cx_vpn()) matches Some(e)
                    && child.trap_cx_ppn.0 == e.ppn_spec()
                &&& child.base_size == self.base_size
                &&& child.heap_bottom == self.heap_bottom
                &&& child.program_brk == self.program_brk
                &&& child.task_status == TaskStatus::Ready
                &&& child.parent is None
                &&& child.children@.len() == 0
                &&& child.exit_code == 0
                &&& child.priority == 16
                &&& child.stride == 0
                &&& child.syscall_times@ == Seq::new(MAX_SYSCALL_NUM as nat, |i: int| 0u32)
            },
    {
        let ghost mem0 = *mem;
        proof {
            lemma_owned_allocated(&self.memory_set, mem0);
        }
        let memory_set = match MemorySet::from_existed_user(mem, &self.memory_set, strampoline) {
            None => {
                return None;
            },
            Some(ms) => ms,
        };
        proof {
            if self.memory_set.view_in(mem0.phys).contains_key(vpn_key(trap_cx_vpn())) {
                lemma_same_keys(self.memory_set.areas_view(), self.memory_set.view_in(mem0.phys), memory_set.view_in(mem.phys),
                    vpn_key(trap_cx_vpn()));
                crate::page_table::lemma_walk_key(mem.phys, memory_set.table().root(), trap_cx_vpn());
            }
        }
        let trap_cx_ppn = match trap_cx_frame(&memory_set, &mem.phys) {
            None => {
                proof {
                    assert forall|q: int| !(owns_frame(&memory_set, q) && owns_frame(&self.memory_set, q)) by {}
                }
                discard_space(memory_set, &self.memory_set, mem);
                return None;
            },
            Some(p) => p,
        };
        let syscall_times = zero_counts(MAX_SYSCALL_NUM as usize);
        Some(TaskControlBlockInner {
            trap_cx_ppn,
            base_size: self.base_size,
            task_status: TaskStatus::Ready,
            memory_set,
            parent: None,
            children: Vec::new(),
            exit_code: 0,
            heap_bottom: self.heap_bottom,
            program_brk: self.program_brk,
            priority: 16,
            stride: 0,
            syscall_times,
        })
    }
}

/// `child` is a child of the process `parent0` in `m0`, which became `parent` in `m`: its address
/// space owns only frames that were free, none of the parent's, has the parent's areas and a copy
/// of the parent's bytes in each page of them; its trap context frame is the one its table maps,
/// its stack top, heap start and break are the parent's, its parent is `parent0`; it is ready,
/// with no children, exit code 0, priority 16, stride 0 and no call counted.
pub open spec fn child_of(child: TaskControlBlock, parent0: TaskControlBlock, parent: TaskControlBlock, m0: Memory, m: Memory) -> bool {
    &&& forall|q: int| #[trigger] owns_frame(&child.inner.memory_set, q) ==> !m0.allocated(q)
    &&& spaces_apart(&child.inner.memory_set, &parent.inner.memory_set)
    &&& child.inner.memory_set.areas_view() == parent0.inner.memory_set.areas_view()
    &&& forall|i: int, v: u64, off: int|
        0 <= i < child.inner.memory_set.area_seq().len() && child.inner.memory_set.area_seq()[i].kind() == MapType::Framed
            && child.inner.memory_set.area_seq()[i].has_page(v) && 0 <= off < PAGE_SIZE
            && child.inner.memory_set.area_seq()[i].frames()[v].ppn != child.inner.trap_cx_ppn ==> #[trigger] m.phys.byte(
            child.inner.memory_set.area_seq()[i].frames()[v].ppn.0 as int, off)
            == m0.phys.byte(parent0.inner.memory_set.area_seq()[i].frames()[v].ppn.0 as int, off)
    &&& translate_spec(m.phys, child.inner.memory_set.table().root(), trap_cx_vpn()) matches Some(e)
        && child.inner.trap_cx_ppn.0 == e.ppn_spec()
    &&& forall|i: int, j: int|
        #![trigger child.inner.memory_set.area_seq()[i], m.phys.word(child.inner.trap_cx_ppn.0 as int, j)]
        0 <= i < child.inner.memory_set.area_seq().len() && child.inner.memory_set.area_seq()[i].kind() == MapType::Framed
            && child.inner.memory_set.area_seq()[i].has_page(trap_cx_vpn()) && 0 <= j < 512 && j != TRAP_A0 && j != TRAP_KERNEL_SP
            ==> m.phys.word(child.inner.trap_cx_ppn.0 as int, j)
                == m0.phys.word(parent0.inner.memory_set.area_seq()[i].frames()[trap_cx_vpn()].ppn.0 as int, j)
    &&& m.phys.word(child.inner.trap_cx_ppn.0 as int, TRAP_A0 as int) == 0
    &&& m.phys.word(child.inner.trap_cx_ppn.0 as int, TRAP_KERNEL_SP as int) == kernel_stack_spec(child.kernel_stack.slot()).1
    &&& child.inner.base_size == parent0.inner.base_size
    &&& child.inner.heap_bottom == parent0.inner.heap_bottom
    &&& child.inner.program_brk == parent0.inner.program_brk
    &&& child.inner.task_status == TaskStatus::Ready
    &&& child.inner.parent == Some(parent0.pid.0)
    &&& child.inner.children@.len() == 0
    &&& child.inner.exit_code == 0
    &&& child.inner.priority == 16
    &&& child.inner.stride == 0
    &&& child.inner.syscall_times@ == Seq::new(MAX_SYSCALL_NUM as nat, |i: int| 0u32)
}

/// `t` is a process that starts the program in the ELF file `data` at `entry`, in memory `m`: its
/// address space has the areas that the loader lays out for the file, its stack top, heap start
/// and break are the top of the user stack, its trap context frame is the one its table maps; it
/// is ready, with no children, exit code 0, stride 0 and no call counted.
pub open spec fn started_from(t: TaskControlBlock, entry: u64, data: Seq<u8>, m: Memory) -> bool {
    &&& t.inner.memory_set.areas_view() == elf_areas(data)
    &&& entry == elf_entry(data)
    &&& t.inner.base_size == stack_top(elf_last_end(data, elf_ph_count(data)))
    &&& t.inner.heap_bottom == t.inner.base_size
    &&& t.inner.program_brk == t.inner.base_size
    &&& translate_spec(m.phys, t.inner.memory_set.table().root(), trap_cx_vpn()) matches Some(e)
        && t.inner.trap_cx_ppn.0 == e.ppn_spec()
    &&& t.inner.task_status == TaskStatus::Ready
    &&& t.inner.children@.len() == 0
    &&& t.inner.exit_code == 0
    &&& t.inner.stride == 0
    &&& t.inner.syscall_times@ == Seq::new(MAX_SYSCALL_NUM as nat, |i: int| 0u32)
    &&& segments_loaded(t.inner.memory_set.area_seq(), m.phys, data, elf_ph_count(data))
}

/// A process for the ELF file `data` can be started with memory `mem`, kernel address space
/// `kernel_space` and the allocators `pids` and `kstacks`: the loader accepts the file, both
/// allocators have a number to hand out, the next kernel stack slot lies below the trampoline and
/// none of its pages is mapped, and frames are free for the program's areas and the kernel stack,
/// three per page and three more.
#[verifier::opaque]
pub open spec fn can_start(data: Seq<u8>, mem: Memory, kernel_space: &MemorySet, pids: &RecycleAllocator, kstacks: &RecycleAllocator) -> bool {
    let n = kstacks.next();
    let a = kernel_stack_area(n);
    &&& elf_loadable(data)
    &&& pids.has_next()
    &&& kstacks.has_next()
    &&& n < kernel_stack_slots()
    &&& forall|v: u64| a.0 <= v < a.1 ==> !kernel_space.view_in(mem.phys).contains_key(#[trigger] vpn_key(v))
    &&& mem.allocator.free_count() >= 3 + 3 * pages_of(elf_areas(data)) + 3 * (a.1 - a.0)
}

/// What `can_start` asks, spelt out.
proof fn lemma_can_start(data: Seq<u8>, mem: Memory, kernel_space: &MemorySet, pids: &RecycleAllocator, kstacks: &RecycleAllocator)
    requires
        can_start(data, mem, kernel_space, pids, kstacks),
    ensures
        elf_loadable(data),
        pids.has_next(),
        kstacks.has_next(),
        kstacks.next() < kernel_stack_slots(),
        forall|v: u64| kernel_stack_area(kstacks.next()).0 <= v < kernel_stack_area(kstacks.next()).1
            ==> !kernel_space.view_in(mem.phys).contains_key(#[trigger] vpn_key(v)),
        mem.allocator.free_count() >= 3 + 3 * pages_of(elf_areas(data))
            + 3 * (kernel_stack_area(kstacks.next()).1 - kernel_stack_area(kstacks.next()).0),
{
    reveal(can_start);
}

/// A kernel stack whose pages were not mapped stays mappable when the kernel's mapping is the
/// same and at most `used` of the frames that were free beyond those it needs were taken.
proof fn lemma_stack_still_free(ks0: &MemorySet, m0: Memory, ks1: &MemorySet, m1: Memory, n: int, used: int)
    requires
        forall|v: u64| kernel_stack_area(n).0 <= v < kernel_stack_area(n).1 ==> !ks0.view_in(m0.phys).contains_key(#[trigger] vpn_key(v)),
        ks1.view_in(m1.phys) == ks0.view_in(m0.phys),
        m0.allocator.free_count() >= used + 3 * (kernel_stack_area(n).1 - kernel_stack_area(n).0),
        m1.allocator.free_count() >= m0.allocator.free_count() - used,
    ensures
        kernel_stack_mappable(ks1, m1, n),
{
}

/// A kernel address space stays as it was, in `kernel_grown`'s terms, while memory changes only
/// in frames that were free and no frame is given back.
proof fn lemma_kernel_unchanged(ks: &MemorySet, m0: Memory, m1: Memory)
    requires
        ks.wf(m0),
        ks.view_in(m1.phys) == ks.view_in(m0.phys),
        m0.phys.same_outside(&m1.phys, unallocated(m0)),
        forall|q: int| #[trigger] m0.allocated(q) ==> m1.allocated(q),
    ensures
        kernel_grown(ks, m0, ks, m1),
{
    lemma_same_outside_wider(&m0.phys, &m1.phys, unallocated(m0), ks.table().frame_set() + unallocated(m0));
}

/// The kernel address space growing twice grows it once.
proof fn lemma_kernel_grown_trans(ks0: &MemorySet, m0: Memory, ks1: &MemorySet, m1: Memory, ks2: &MemorySet, m2: Memory)
    requires
        kernel_grown(ks0, m0, ks1, m1),
        kernel_grown(ks1, m1, ks2, m2),
    ensures
        kernel_grown(ks0, m0, ks2, m2),
{
    let kf1 = ks1.table().frame_set();
    let kf2 = ks2.table().frame_set();
    crate::phys_mem::lemma_same_outside_trans(&m0.phys, &m1.phys, &m2.phys, kf1 + unallocated(m0), kf2 + unallocated(m1),
        kf2 + unallocated(m0));
    assert forall|q: int| #[trigger] kf2.contains(q) && !ks0.table().frame_set().contains(q) implies !m0.allocated(q) by {
        if kf1.contains(q) {
        } else {
            assert(!m1.allocated(q));
        }
    }
    assert forall|q: int| ks2.holds_data_frame(q) implies ks0.holds_data_frame(q) || !m0.allocated(q) by {
        if ks1.holds_data_frame(q) {
        } else {
            assert(!m1.allocated(q));
        }
    }
}

/// Takes a process identifier from `pids` and a kernel stack from `kstacks`, mapped in
/// `kernel_space`, for a process with the address space `memory_set` that the loader laid out
/// for the ELF file `data`, stack top `user_sp`; the address space owns only frames that were free
/// in `mem0`. `None`, with the identifier and the slot given back and the address space's frames
/// freed, when the kernel stack cannot be mapped.
fn attach_kernel_stack(memory_set: MemorySet, user_sp: u64, mem: &mut Memory, kernel_space: &mut MemorySet,
    pids: &mut RecycleAllocator, kstacks: &mut RecycleAllocator, Ghost(mem0): Ghost<Memory>, Ghost(data): Ghost<Seq<u8>>)
    -> (r: Option<TaskControlBlock>)
    requires
        old(mem).wf(),
        old(kernel_space).wf(*old(mem)),
        old(pids).wf(),
        old(kstacks).wf(),
        old(pids).has_next(),
        old(kstacks).has_next(),
        memory_set.user_space_ok(*old(mem)),
        spaces_apart(&memory_set, old(kernel_space)),
        forall|q: int| #[trigger] owns_frame(&memory_set, q) ==> !mem0.allocated(q),
        kernel_grown(old(kernel_space), mem0, old(kernel_space), *old(mem)),
        elf_loadable(data),
        memory_set.areas_view() == elf_areas(data),
        user_sp == stack_top(elf_last_end(data, elf_ph_count(data))),
        segments_loaded(memory_set.area_seq(), old(mem).phys, data, elf_ph_count(data)),
    ensures
        final(mem).wf(),
        final(kernel_space).wf(*final(mem)),
        final(pids).wf(),
        final(kstacks).wf(),
        kernel_grown(old(kernel_space), mem0, final(kernel_space), *final(mem)),
        old(kstacks).next() < kernel_stack_slots() && kernel_stack_mappable(old(kernel_space), *old(mem), old(kstacks).next()) ==> r is Some,
        r matches Some(t) ==> {
            &&& t.wf(*final(mem), final(kernel_space))
            &&& forall|q: int| #[trigger] owns_frame(&t.inner.memory_set, q) ==> !mem0.allocated(q)
            &&& started_from(t, elf_entry(data), data, *final(mem))
            &&& t.inner.parent is None
            &&& t.inner.priority == 16
            &&& !old(pids).in_use(t.pid.0 as int) && final(pids).in_use(t.pid.0 as int)
            &&& forall|id: int| id != t.pid.0 ==> #[trigger] final(pids).in_use(id) == old(pids).in_use(id)
            &&& !old(kstacks).in_use(t.kernel_stack.slot()) && final(kstacks).in_use(t.kernel_stack.slot())
            &&& final(kernel_space).areas_view() == old(kernel_space).areas_view().push(kernel_stack_area(t.kernel_stack.slot()))
        },
        r is None ==> {
            &&& forall|id: int| #[trigger] final(pids).in_use(id) == old(pids).in_use(id)
            &&& forall|id: int| #[trigger] final(kstacks).in_use(id) == old(kstacks).in_use(id)
            &&& final(kernel_space).areas_view() == old(kernel_space).areas_view()
            &&& final(kernel_space).view_in(final(mem).phys) == old(kernel_space).view_in(old(mem).phys)
        },
{
    let ghost mem1 = *mem;
    let ghost ks0 = *kernel_space;
    proof {
        lemma_owned_allocated(&memory_set, mem1);
    }
    let pid = pid_alloc(pids);
    let kernel_stack = match kstack_alloc(kstacks, kernel_space, mem) {
        None => {
            pids.dealloc(pid.0);
            let ghost mem2 = *mem;
            proof {
                lemma_beside_kernel(&memory_set, &ks0, mem1, kernel_space, mem2);
            }
            let ghost ms = memory_set;
            discard_space(memory_set, kernel_space, mem);
            proof {
                lemma_kernel_grown_trans(&ks0, mem0, &ks0, mem1, kernel_space, mem2);
                assert forall|q: int| #[trigger] mem0.allocated(q) implies mem.allocated(q) by {
                    assert(!owns_frame(&ms, q));
                }
            }
            return None;
        },
        Some(k) => k,
    };
    let ghost mem2 = *mem;
    proof {
        lemma_beside_kernel(&memory_set, &ks0, mem1, kernel_space, mem2);
        lemma_loaded_survives(&memory_set, mem1, mem2, kernel_space.table().frame_set() + unallocated(mem1), data, elf_ph_count(data));
        lemma_trap_page_mapped(&memory_set, mem2, data);
        lemma_kernel_grown_trans(&ks0, mem0, &ks0, mem1, kernel_space, mem2);
    }
    let trap_cx_ppn = trap_cx_frame(&memory_set, &mem.phys).unwrap();
    let syscall_times = zero_counts(MAX_SYSCALL_NUM as usize);
    let inner = TaskControlBlockInner {
        trap_cx_ppn,
        base_size: user_sp,
        task_status: TaskStatus::Ready,
        memory_set,
        parent: None,
        children: Vec::new(),
        exit_code: 0,
        heap_bottom: user_sp,
        program_brk: user_sp,
        priority: 16,
        stride: 0,
        syscall_times,
    };
    Some(TaskControlBlock { pid, kernel_stack, inner })
}

/// A child of `parent` can be made with memory `mem`, kernel address space `kernel_space` and the
/// allocators `pids` and `kstacks`: both allocators have a number to hand out, the next kernel
/// stack slot lies below the trampoline and none of its pages is mapped, the parent's trap context
/// page is mapped, and frames are free for a copy of the parent's areas and for the kernel
/// stack, three per page and three more.
#[verifier::opaque]
pub open spec fn can_fork(parent: &TaskControlBlock, mem: Memory, kernel_space: &MemorySet, pids: &RecycleAllocator, kstacks: &RecycleAllocator) -> bool {
    let n = kstacks.next();
    let a = kernel_stack_area(n);
    &&& pids.has_next()
    &&& kstacks.has_next()
    &&& n < kernel_stack_slots()
    &&& forall|v: u64| a.0 <= v < a.1 ==> !kernel_space.view_in(mem.phys).contains_key(#[trigger] vpn_key(v))
    &&& parent.inner.memory_set.view_in(mem.phys).contains_key(vpn_key(trap_cx_vpn()))
    &&& mem.allocator.free_count() >= 3 + 3 * pages_of(parent.inner.memory_set.areas_view()) + 3 * (a.1 - a.0)
}

/// The trap context page lies in a framed area of `areas`.
pub open spec fn trap_page_framed(areas: Seq<(int, int, MapType, u8)>) -> bool {
    exists|i: int| 0 <= i < areas.len() && (#[trigger] areas[i]).2 == MapType::Framed && areas[i].0 <= trap_cx_vpn() < areas[i].1
}

/// What `can_fork` asks, spelt out.
proof fn lemma_can_fork(parent: &TaskControlBlock, mem: Memory, kernel_space: &MemorySet, pids: &RecycleAllocator, kstacks: &RecycleAllocator)
    requires
        can_fork(parent, mem, kernel_space, pids, kstacks),
        parent.inner.wf(mem),
    ensures
        pids.has_next(),
        kstacks.has_next(),
        kstacks.next() < kernel_stack_slots(),
        forall|v: u64| kernel_stack_area(kstacks.next()).0 <= v < kernel_stack_area(kstacks.next()).1
            ==> !kernel_space.view_in(mem.phys).contains_key(#[trigger] vpn_key(v)),
        parent.inner.memory_set.view_in(mem.phys).contains_key(vpn_key(trap_cx_vpn())),
        trap_page_framed(parent.inner.memory_set.areas_view()),
        mem.allocator.free_count() >= 3 + 3 * pages_of(parent.inner.memory_set.areas_view())
            + 3 * (kernel_stack_area(kstacks.next()).1 - kernel_stack_area(kstacks.next()).0),
{
    reveal(can_fork);
    assert(trap_cx_vpn() < 0x800_0000);
    crate::memory_set::lemma_small_key(trap_cx_vpn());
    crate::memory_set::lemma_user_page_area(&parent.inner.memory_set, mem, trap_cx_vpn());
}

/// A process: its identifier, its kernel stack and the state that its system calls change.
pub struct TaskControlBlock {
    /// process identifier
    pub pid: PidHandle,
    /// kernel stack, mapped in the kernel address space
    pub kernel_stack: KernelStack,
    /// the rest of the state
    pub inner: TaskControlBlockInner,
}

impl TaskControlBlock {
    /// The state is well formed, the kernel stack lies below the trampoline, and the address space
    /// owns no frame of the kernel address space `kernel_space`.
    pub open spec fn wf(&self, mem: Memory, kernel_space: &MemorySet) -> bool {
        &&& self.inner.wf(mem)
        &&& self.kernel_stack.slot() < kernel_stack_slots()
        &&& spaces_apart(&self.inner.memory_set, kernel_space)
    }

    /// A process running the program in the ELF file `elf_data`: the address space that
    /// `MemorySet::from_elf` builds (the trampoline mapped to `strampoline`), a new identifier from
    /// `pids`, a kernel stack from `kstacks` mapped in `kernel_space`; stack top, heap start and
    /// break at the top of the user stack, no parent, no children, ready, priority 16, no call
    /// counted; its trap context frame holds `app_context` for the entry point and the stack top,
    /// with `sstatus`, the kernel space's token, the top of its kernel stack and the address of the
    /// trap handler `trap_handler`. Returns it with the program's entry point. The file's header
    /// must be one that `xmas_elf` accepts. `None`, with every identifier, slot and kernel mapping
    /// as before, when the rest of the file is not one the loader accepts, no identifier or stack
    /// slot is left, or frames run out.
    pub fn new(elf_data: &[u8], mem: &mut Memory, kernel_space: &mut MemorySet, pids: &mut RecycleAllocator,
        kstacks: &mut RecycleAllocator, strampoline: PhysAddr, sstatus: u64, trap_handler: u64) -> (r: Option<(TaskControlBlock, u64)>)
        requires
            old(mem).wf(),
            header_accepted(elf_data@),
            old(kernel_space).wf(*old(mem)),
            old(pids).wf(),
            old(kstacks).wf(),
            strampoline.0 % PAGE_SIZE == 0,
        ensures
            final(mem).wf(),
            final(kernel_space).wf(*final(mem)),
            final(pids).wf(),
            final(kstacks).wf(),
            kernel_grown(old(kernel_space), *old(mem), final(kernel_space), *final(mem)),
            r is Some ==> elf_loadable(elf_data@),
            can_start(elf_data@, *old(mem), old(kernel_space), old(pids), old(kstacks)) ==> r is Some,
            r matches Some((t, entry)) ==> {
                &&& t.wf(*final(mem), final(kernel_space))
                &&& forall|q: int| #[trigger] owns_frame(&t.inner.memory_set, q) ==> !old(mem).allocated(q)
                &&& started_from(t, entry, elf_data@, *final(mem))
                &&& t.inner.parent is None
                &&& t.inner.priority == 16
                &&& !old(pids).in_use(t.pid.0 as int) && final(pids).in_use(t.pid.0 as int)
                &&& forall|id: int| id != t.pid.0 ==> #[trigger] final(pids).in_use(id) == old(pids).in_use(id)
                &&& !old(kstacks).in_use(t.kernel_stack.slot()) && final(kstacks).in_use(t.kernel_stack.slot())
                &&& final(kernel_space).areas_view() == old(kernel_space).areas_view().push(kernel_stack_area(t.kernel_stack.slot()))
                &&& forall|j: int| 0 <= j < TRAP_WORDS ==> #[trigger] final(mem).phys.word(t.inner.trap_cx_ppn.0 as int, j)
                    == app_context(entry, t.inner.base_size, sstatus, 0x8000_0000_0000_0000u64 | (final(kernel_space).table().root() as u64),
                        kernel_stack_spec(t.kernel_stack.slot()).1 as u64, trap_handler)[j]
            },
            r is None ==> {
                &&& forall|id: int| #[trigger] final(pids).in_use(id) == old(pids).in_use(id)
                &&& forall|id: int| #[trigger] final(kstacks).in_use(id) == old(kstacks).in_use(id)
                &&& final(kernel_space).areas_view() == old(kernel_space).areas_view()
                &&& final(kernel_space).view_in(final(mem).phys) == old(kernel_space).view_in(old(mem).phys)
            },
    {
        let ghost pids0 = *pids;
        let ghost kst_start = *kstacks;
        let ghost mem0 = *mem;
        let ghost ks0 = *kernel_space;
        proof {
            lemma_same_outside_refl(&mem0.phys, kernel_space.table().frame_set() + unallocated(mem0));
            lemma_owned_allocated(kernel_space, mem0);
        }
        if !pids.can_allocate() || !kstacks.can_allocate() {
            proof {
                if can_start(elf_data@, mem0, &ks0, &pids0, &kst_start) {
                    lemma_can_start(elf_data@, mem0, &ks0, &pids0, &kst_start);
                }
            }
            return None;
        }
        let (memory_set, user_sp, entry_point) = match MemorySet::from_elf(mem, elf_data, strampoline) {
            None => {
                proof {
                    if can_start(elf_data@, mem0, &ks0, &pids0, &kst_start) {
                        lemma_can_start(elf_data@, mem0, &ks0, &pids0, &kst_start);
                        crate::id::lemma_kernel_stack_pages(kst_start.next());
                    }
                    lemma_space_survives(kernel_space, mem0, *mem);
                    lemma_same_outside_wider(&mem0.phys, &mem.phys, unallocated(mem0), kernel_space.table().frame_set() + unallocated(mem0));
                }
                return None;
            },
            Some(t) => t,
        };
        let ghost mem1 = *mem;
        proof {
            lemma_space_survives(kernel_space, mem0, mem1);
            lemma_owned_allocated(&memory_set, mem1);
            assert forall|q: int| !(owns_frame(&memory_set, q) && owns_frame(&ks0, q)) by {}
            lemma_kernel_unchanged(kernel_space, mem0, mem1);
            if can_start(elf_data@, mem0, &ks0, &pids0, &kst_start) {
                lemma_can_start(elf_data@, mem0, &ks0, &pids0, &kst_start);
                crate::id::lemma_kernel_stack_pages(kst_start.next());
                lemma_stack_still_free(&ks0, mem0, kernel_space, mem1, kst_start.next(),
                    3 + 3 * pages_of(elf_areas(elf_data@)));
            }
        }
        let r = attach_kernel_stack(memory_set, user_sp, mem, kernel_space, pids, kstacks, Ghost(mem0), Ghost(elf_data@));
        match r {
            Some(t) => {
                let ghost mem2 = *mem;
                let kernel_satp = kernel_space.token();
                let kernel_sp = t.kernel_stack.get_top();
                put_start_context(&t.inner.memory_set, kernel_space, mem, t.inner.trap_cx_ppn, entry_point, t.inner.base_size,
                    sstatus, kernel_satp, kernel_sp, trap_handler, Ghost(elf_data@));
                proof {
                    let f = t.inner.trap_cx_ppn.0 as int;
                    let kf = kernel_space.table().frame_set();
                    assert(!mem0.allocated(f));
                    crate::phys_mem::lemma_same_outside_trans(&mem0.phys, &mem2.phys, &mem.phys, kf + unallocated(mem0),
                        set![f], kf + unallocated(mem0));
                }
                Some((t, entry_point))
            },
            None => None,
        }
    }
    /// Replaces the program of the process by the one in the ELF file `elf_data`, as
    /// `TaskControlBlockInner::exec` does; the identifier and the kernel stack stay, and the kernel
    /// address space `kernel_space` keeps its mappings; the new trap context frame holds
    /// `app_context` for the entry point and the stack top, with `sstatus`, the kernel space's
    /// token, the top of the kernel stack and `trap_handler`. Returns the entry point and the stack
    /// top. The file's header must be one that `xmas_elf` accepts. `None`, with nothing of the
    /// process changed, when the rest of the file is not one the loader accepts or frames run out.
    pub fn exec(&mut self, mem: &mut Memory, kernel_space: &MemorySet, elf_data: &[u8], strampoline: PhysAddr, sstatus: u64,
        trap_handler: u64) -> (r: Option<(u64, u64)>)
        requires
            old(self).wf(*old(mem), kernel_space),
            kernel_space.wf(*old(mem)),
            old(mem).wf(),
            header_accepted(elf_data@),
            strampoline.0 % PAGE_SIZE == 0,
        ensures
            final(mem).wf(),
            final(self).wf(*final(mem), kernel_space),
            kernel_space.wf(*final(mem)),
            kernel_space.view_in(final(mem).phys) == kernel_space.view_in(old(mem).phys),
            final(self).pid == old(self).pid,
            final(self).kernel_stack == old(self).kernel_stack,
            r is Some ==> elf_loadable(elf_data@),
            elf_loadable(elf_data@) && old(mem).allocator.free_count() >= 3 + 3 * pages_of(elf_areas(elf_data@)) ==> r is Some,
            r matches Some((entry, sp)) ==> {
                &&& final(self).inner.memory_set.areas_view() == elf_areas(elf_data@)
                &&& entry == elf_entry(elf_data@)
                &&& sp == stack_top(elf_last_end(elf_data@, elf_ph_count(elf_data@)))
                &&& final(self).inner.base_size == sp
                &&& translate_spec(final(mem).phys, final(self).inner.memory_set.table().root(), trap_cx_vpn()) matches Some(e)
                    && final(self).inner.trap_cx_ppn.0 == e.ppn_spec()
                &&& forall|q: int| #[trigger] owns_frame(&old(self).inner.memory_set, q) ==> !final(mem).allocated(q)
                &&& segments_loaded(final(self).inner.memory_set.area_seq(), final(mem).phys, elf_data@, elf_ph_count(elf_data@))
                &&& final(mem).allocator.free_count() >= old(mem).allocator.free_count() - 3 - 3 * pages_of(elf_areas(elf_data@))
                &&& forall|j: int| 0 <= j < TRAP_WORDS ==> #[trigger] final(mem).phys.word(final(self).inner.trap_cx_ppn.0 as int, j)
                    == app_context(entry, sp, sstatus, 0x8000_0000_0000_0000u64 | (kernel_space.table().root() as u64),
                        kernel_stack_spec(old(self).kernel_stack.slot()).1 as u64, trap_handler)[j]
            },
            r is None ==> final(self).inner.memory_set == old(self).inner.memory_set
                && final(self).inner.trap_cx_ppn == old(self).inner.trap_cx_ppn
                && final(self).inner.base_size == old(self).inner.base_size
                && final(self).inner.memory_set.view_in(final(mem).phys) == old(self).inner.memory_set.view_in(old(mem).phys),
            final(self).inner.heap_bottom == old(self).inner.heap_bottom,
            final(self).inner.program_brk == old(self).inner.program_brk,
            final(self).inner.task_status == old(self).inner.task_status,
            final(self).inner.parent == old(self).inner.parent,
            final(self).inner.children == old(self).inner.children,
            final(self).inner.exit_code == old(self).inner.exit_code,
            final(self).inner.priority == old(self).inner.priority,
            final(self).inner.stride == old(self).inner.stride,
            final(self).inner.syscall_times == old(self).inner.syscall_times,
    {
        let ghost mem0 = *mem;
        proof {
            lemma_owned_allocated(kernel_space, mem0);
        }
        let r = self.inner.exec(mem, elf_data, strampoline);
        proof {
            assert forall|q: int| #[trigger] owns_frame(kernel_space, q) implies mem.allocated(q) by {
                assert(!owns_frame(&old(self).inner.memory_set, q));
            }
            lemma_space_survives(kernel_space, mem0, *mem);
            assert forall|q: int| !(owns_frame(&self.inner.memory_set, q) && owns_frame(kernel_space, q)) by {
                if r is None {
                    assert(self.inner.memory_set == old(self).inner.memory_set);
                }
            }
        }
        if let Some((entry, sp)) = r {
            let kernel_satp = kernel_space.token();
            let kernel_sp = self.kernel_stack.get_top();
            put_start_context(&self.inner.memory_set, kernel_space, mem, self.inner.trap_cx_ppn, entry, sp,
                sstatus, kernel_satp, kernel_sp, trap_handler, Ghost(elf_data@));
        }
        r
    }

    /// A child of this process, as `TaskControlBlockInner::fork` makes it, with a new identifier
    /// from `pids` and a kernel stack from `kstacks` mapped in `kernel_space`; its parent is this
    /// process, whose children gain its identifier. Its trap context is the parent's, but that the
    /// call returns 0 in it (`a0`) and that its next trap uses its own kernel stack. `None`, with
    /// identifiers, stack slots, children and kernel mappings as before and the frames of the copy
    /// given back, when no identifier or stack slot is left, frames run out, or the trap context
    /// page is not mapped.
    pub fn fork(&mut self, mem: &mut Memory, kernel_space: &mut MemorySet, pids: &mut RecycleAllocator,
        kstacks: &mut RecycleAllocator, strampoline: PhysAddr) -> (r: Option<TaskControlBlock>)
        requires
            old(self).wf(*old(mem), old(kernel_space)),
            old(kernel_space).wf(*old(mem)),
            old(mem).wf(),
            old(pids).wf(),
            old(kstacks).wf(),
            strampoline.0 % PAGE_SIZE == 0,
        ensures
            final(mem).wf(),
            final(kernel_space).wf(*final(mem)),
            final(pids).wf(),
            final(kstacks).wf(),
            kernel_grown(old(kernel_space), *old(mem), final(kernel_space), *final(mem)),
            final(self).wf(*final(mem), final(kernel_space)),
            final(self).inner.memory_set == old(self).inner.memory_set,
            final(self).inner.memory_set.view_in(final(mem).phys) == old(self).inner.memory_set.view_in(old(mem).phys),
            final(self).pid == old(self).pid,
            final(self).kernel_stack == old(self).kernel_stack,
            final(self).inner.trap_cx_ppn == old(self).inner.trap_cx_ppn,
            final(self).inner.base_size == old(self).inner.base_size,
            final(self).inner.heap_bottom == old(self).inner.heap_bottom,
            final(self).inner.program_brk == old(self).inner.program_brk,
            final(self).inner.task_status == old(self).inner.task_status,
            final(self).inner.parent == old(self).inner.parent,
            final(self).inner.exit_code == old(self).inner.exit_code,
            final(self).inner.priority == old(self).inner.priority,
            final(self).inner.stride == old(self).inner.stride,
            final(self).inner.syscall_times == old(self).inner.syscall_times,
            can_fork(old(self), *old(mem), old(kernel_space), old(pids), old(kstacks)) ==> r is Some,
            r matches Some(child) ==> {
                &&& child.wf(*final(mem), final(kernel_space))
                &&& child_of(child, *old(self), *final(self), *old(mem), *final(mem))
                &&& final(self).inner.children@ == old(self).inner.children@.push(child.pid.0)
                &&& !old(pids).in_use(child.pid.0 as int) && final(pids).in_use(child.pid.0 as int)
                &&& forall|id: int| id != child.pid.0 ==> #[trigger] final(pids).in_use(id) == old(pids).in_use(id)
                &&& !old(kstacks).in_use(child.kernel_stack.slot()) && final(kstacks).in_use(child.kernel_stack.slot())
                &&& final(kernel_space).areas_view() == old(kernel_space).areas_view().push(kernel_stack_area(child.kernel_stack.slot()))
            },
            r is None ==> {
                &&& final(self).inner.children == old(self).inner.children
                &&& forall|id: int| #[trigger] final(pids).in_use(id) == old(pids).in_use(id)
                &&& forall|id: int| #[trigger] final(kstacks).in_use(id) == old(kstacks).in_use(id)
                &&& final(kernel_space).areas_view() == old(kernel_space).areas_view()
                &&& final(kernel_space).view_in(final(mem).phys) == old(kernel_space).view_in(old(mem).phys)
            },
    {
        let ghost mem0 = *mem;
        let ghost ks0 = *kernel_space;
        let ghost pids0 = *pids;
        let ghost kst_start = *kstacks;
        let ghost me = *self;
        proof {
            lemma_same_outside_refl(&mem0.phys, kernel_space.table().frame_set() + unallocated(mem0));
            lemma_owned_allocated(kernel_space, mem0);
            lemma_owned_allocated(&self.inner.memory_set, mem0);
        }
        if !pids.can_allocate() || !kstacks.can_allocate() {
            proof {
                if can_fork(&me, mem0, &ks0, &pids0, &kst_start) {
                    lemma_can_fork(&me, mem0, &ks0, &pids0, &kst_start);
                }
            }
            return None;
        }
        let child_inner = match self.inner.fork(mem, strampoline) {
            None => {
                proof {
                    if can_fork(&me, mem0, &ks0, &pids0, &kst_start) {
                        lemma_can_fork(&me, mem0, &ks0, &pids0, &kst_start);
                        crate::id::lemma_kernel_stack_pages(kst_start.next());
                    }
                    lemma_space_survives(kernel_space, mem0, *mem);
                    lemma_same_outside_wider(&mem0.phys, &mem.phys, unallocated(mem0), kernel_space.table().frame_set() + unallocated(mem0));
                }
                return None;
            },
            Some(c) => c,
        };
        let ghost mem1 = *mem;
        proof {
            lemma_space_survives(kernel_space, mem0, mem1);
            if can_fork(&me, mem0, &ks0, &pids0, &kst_start) {
                lemma_can_fork(&me, mem0, &ks0, &pids0, &kst_start);
                crate::id::lemma_kernel_stack_pages(kst_start.next());
                lemma_stack_still_free(&ks0, mem0, kernel_space, mem1, kst_start.next(),
                    3 + 3 * pages_of(me.inner.memory_set.areas_view()));
            }
            lemma_owned_allocated(&child_inner.memory_set, mem1);
            assert forall|q: int| !(owns_frame(&child_inner.memory_set, q) && owns_frame(&ks0, q)) by {}
        }
        let trap_frame = match child_inner.memory_set.data_frame_of(0x7ff_fffe) {
            None => {
                proof {
                    if can_fork(&me, mem0, &ks0, &pids0, &kst_start) {
                        lemma_can_fork(&me, mem0, &ks0, &pids0, &kst_start);
                        let areas = me.inner.memory_set.areas_view();
                        let i = choose|i: int| 0 <= i < areas.len() && (#[trigger] areas[i]).2 == MapType::Framed && areas[i].0 <= trap_cx_vpn() < areas[i].1;
                        let a = child_inner.memory_set.area_seq()[i];
                        assert(child_inner.memory_set.areas_view()[i] == areas[i]);
                        assert(a.area_ok(&child_inner.memory_set.table(), mem1));
                        assert(a.has_page(trap_cx_vpn()));
                        assert(a.frames().contains_key(trap_cx_vpn()));
                    }
                    lemma_owned_allocated(&self.inner.memory_set, mem1);
                }
                let ghost cs = child_inner.memory_set;
                let TaskControlBlockInner { memory_set: child_space, .. } = child_inner;
                discard_space(child_space, &self.inner.memory_set, mem);
                proof {
                    assert forall|q: int| #[trigger] owns_frame(kernel_space, q) implies mem.allocated(q) by {
                        assert(!owns_frame(&cs, q));
                    }
                    lemma_same_outside_refl(&mem1.phys, unallocated(mem1));
                    lemma_space_survives(kernel_space, mem1, *mem);
                    lemma_same_outside_wider(&mem0.phys, &mem1.phys, unallocated(mem0), kernel_space.table().frame_set() + unallocated(mem0));
                }
                return None;
            },
            Some(f) => f,
        };
        proof {
            let cs = child_inner.memory_set;
            let i = choose|i: int| 0 <= i < cs.area_seq().len() && cs.area_seq()[i].kind() == MapType::Framed
                && cs.area_seq()[i].has_page(trap_cx_vpn()) && #[trigger] cs.area_seq()[i].frames()[trap_cx_vpn()].ppn == trap_frame;
            crate::memory_set::lemma_area_page_entry(&cs, mem1, i, trap_cx_vpn());
            assert(cs.area_seq()[i].area_ok(&cs.table(), mem1));
            assert(mem1.phys.has_frame(trap_frame.0 as int));
            crate::memory_set::lemma_area_entry_ppn(trap_frame.0, cs.area_seq()[i].perm());
            assert(child_inner.trap_cx_ppn == trap_frame);
        }
        let pid = pid_alloc(pids);
        let kernel_stack = match kstack_alloc(kstacks, kernel_space, mem) {
            None => {
                pids.dealloc(pid.0);
                let ghost mem2 = *mem;
                proof {
                    lemma_beside_kernel(&child_inner.memory_set, &ks0, mem1, kernel_space, mem2);
                    lemma_beside_kernel(&self.inner.memory_set, &ks0, mem1, kernel_space, mem2);
                    lemma_owned_allocated(&self.inner.memory_set, mem2);
                }
                let TaskControlBlockInner { memory_set: child_space, .. } = child_inner;
                discard_space(child_space, kernel_space, mem);
                proof {
                    let kf = kernel_space.table().frame_set();
                    crate::phys_mem::lemma_same_outside_trans(&mem0.phys, &mem1.phys, &mem2.phys, unallocated(mem0), kf + unallocated(mem1), kf + unallocated(mem0));
                    lemma_same_outside_refl(&mem2.phys, unallocated(mem2));
                    assert forall|q: int| #[trigger] owns_frame(&self.inner.memory_set, q) implies mem.allocated(q) by {
                        assert(!owns_frame(&child_space, q));
                    }
                    lemma_space_survives(&self.inner.memory_set, mem2, *mem);
                }
                return None;
            },
            Some(k) => k,
        };
        let ghost mem2 = *mem;
        proof {
            lemma_beside_kernel(&child_inner.memory_set, &ks0, mem1, kernel_space, mem2);
            lemma_beside_kernel(&self.inner.memory_set, &ks0, mem1, kernel_space, mem2);
            let kf = kernel_space.table().frame_set();
            crate::phys_mem::lemma_same_outside_trans(&mem0.phys, &mem1.phys, &mem2.phys, unallocated(mem0), kf + unallocated(mem1), kf + unallocated(mem0));
            assert(translate_spec(mem2.phys, child_inner.memory_set.table().root(), trap_cx_vpn())
                == translate_spec(mem1.phys, child_inner.memory_set.table().root(), trap_cx_vpn()));
            assert forall|q: int| !(owns_frame(&child_inner.memory_set, q) && owns_frame(&self.inner.memory_set, q)) by {}
            let cs = child_inner.memory_set;
            assert forall|i: int, v: u64, off: int|
                0 <= i < cs.area_seq().len() && cs.area_seq()[i].kind() == MapType::Framed && cs.area_seq()[i].has_page(v)
                    && 0 <= off < PAGE_SIZE implies #[trigger] mem2.phys.byte(cs.area_seq()[i].frames()[v].ppn.0 as int, off)
                    == mem1.phys.byte(cs.area_seq()[i].frames()[v].ppn.0 as int, off) by {
                let q = cs.area_seq()[i].frames()[v].ppn.0 as int;
                assert(cs.holds_data_frame(q));
                assert(owns_frame(&cs, q));
                assert(cs.area_seq()[i].area_ok(&cs.table(), mem1));
                assert(mem1.phys.has_frame(q));
            }
        }
        let mut child_inner = child_inner;
        child_inner.parent = Some(self.pid.0);
        self.inner.children.push(pid.0);
        let kernel_sp = kernel_stack.get_top();
        let ghost ks2 = *kernel_space;
        proof {
            let cs = child_inner.memory_set;
            let f = trap_frame.0 as int;
            lemma_owned_allocated(&cs, mem2);
            assert(mem2.phys.has_frame(f)) by {
                let i = choose|i: int| 0 <= i < cs.area_seq().len() && cs.area_seq()[i].kind() == MapType::Framed
                    && cs.area_seq()[i].has_page(trap_cx_vpn()) && #[trigger] cs.area_seq()[i].frames()[trap_cx_vpn()].ppn == trap_frame;
                assert(cs.area_seq()[i].area_ok(&cs.table(), mem2));
            }
        }
        fork_child_context(&mut mem.phys, trap_frame, kernel_sp);
        proof {
            let cs = child_inner.memory_set;
            let ps = self.inner.memory_set;
            let f = trap_frame.0 as int;
            let i = choose|i: int| 0 <= i < cs.area_seq().len() && cs.area_seq()[i].kind() == MapType::Framed
                && cs.area_seq()[i].has_page(trap_cx_vpn()) && #[trigger] cs.area_seq()[i].frames()[trap_cx_vpn()].ppn == trap_frame;
            assert(cs.holds_data_frame(f));
            assert(owns_frame(&cs, f));
            assert(!owns_frame(&ps, f));
            assert(!owns_frame(kernel_space, f));
            assert(cs.area_seq()[i].area_ok(&cs.table(), mem2));
            assert forall|q: int| #[trigger] cs.table().frame_set().contains(q) implies !set![f].contains(q) by {}
            assert forall|q: int| #[trigger] ps.table().frame_set().contains(q) implies !set![f].contains(q) by {
                assert(owns_frame(&ps, q));
            }
            assert forall|q: int| #[trigger] kernel_space.table().frame_set().contains(q) implies !set![f].contains(q) by {
                assert(owns_frame(kernel_space, q));
            }
            Memory::lemma_wf_bytes_changed(mem2, *mem);
            lemma_space_kept_apart(&cs, mem2, *mem, set![f]);
            lemma_space_kept_apart(&ps, mem2, *mem, set![f]);
            lemma_space_kept_apart(kernel_space, mem2, *mem, set![f]);
            let kf = kernel_space.table().frame_set();
            assert(!mem0.allocated(f));
            crate::phys_mem::lemma_same_outside_trans(&mem0.phys, &mem2.phys, &mem.phys, kf + unallocated(mem0), set![f], kf + unallocated(mem0));
            assert forall|i2: int, v: u64, off: int|
                0 <= i2 < cs.area_seq().len() && cs.area_seq()[i2].kind() == MapType::Framed
                    && cs.area_seq()[i2].has_page(v) && 0 <= off < PAGE_SIZE
                    && cs.area_seq()[i2].frames()[v].ppn != trap_frame implies #[trigger] mem.phys.byte(
                    cs.area_seq()[i2].frames()[v].ppn.0 as int, off)
                    == mem0.phys.byte(me.inner.memory_set.area_seq()[i2].frames()[v].ppn.0 as int, off) by {
                let q = cs.area_seq()[i2].frames()[v].ppn.0 as int;
                assert(cs.area_seq()[i2].area_ok(&cs.table(), mem2));
                assert(mem2.phys.has_frame(q));
                assert(mem2.phys.byte(q, off) == mem1.phys.byte(q, off));
            }
            assert forall|i2: int, j: int|
                #![trigger cs.area_seq()[i2], mem.phys.word(f, j)]
                0 <= i2 < cs.area_seq().len() && cs.area_seq()[i2].kind() == MapType::Framed
                    && cs.area_seq()[i2].has_page(trap_cx_vpn()) && 0 <= j < 512 && j != TRAP_A0 && j != TRAP_KERNEL_SP
                implies mem.phys.word(f, j) == mem0.phys.word(me.inner.memory_set.area_seq()[i2].frames()[trap_cx_vpn()].ppn.0 as int, j) by {
                let g = me.inner.memory_set.area_seq()[i2].frames()[trap_cx_vpn()].ppn.0 as int;
                let h = cs.area_seq()[i2].frames()[trap_cx_vpn()].ppn.0 as int;
                if i2 != i {
                    assert(cs.area_seq()[i2].frames()[trap_cx_vpn()].ppn != cs.area_seq()[i].frames()[trap_cx_vpn()].ppn);
                    assert(vpn_key(trap_cx_vpn()) != vpn_key(trap_cx_vpn()));
                }
                assert(h == f);
                assert(cs.area_seq()[i2].area_ok(&cs.table(), mem2));
                assert forall|off: int| j * 8 <= off < j * 8 + 8 implies mem2.phys.byte(f, off) == mem0.phys.byte(g, off) by {
                    assert(mem2.phys.byte(f, off) == mem1.phys.byte(f, off));
                }
                crate::phys_mem::lemma_word_from_bytes_of(&mem0.phys, &mem2.phys, g, f, j);
            }
        }
        Some(TaskControlBlock { pid, kernel_stack, inner: child_inner })
    }
}


} // verus!
