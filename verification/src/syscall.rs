//! System calls on the state of the calling process: time, tracing, memory mapping, the program
//! break, yielding and exiting.
use vstd::prelude::*;
use crate::address::{PhysAddr, VirtAddr, VirtPageNum, floor_page, ceil_page};
use crate::config::PAGE_SIZE;
use crate::frame_allocator::Memory;
use crate::memory_set::{MapPermission, MapType, MemorySet, area_over, below_trampoline, key_in, space_ok,
    trampoline_vpn, lemma_space_push, lemma_space_remove, has_match, is_first_match, elf_loadable, elf_areas, elf_entry,
    elf_last_end, elf_ph_count, stack_top, pages_of, unallocated, view_extends, segments_loaded};
use crate::mm::{copy_to_user, read_virtaddr, write_virtaddr, token_root, entry_of, user_range_ok, user_written, user_str,
    translated_str, lemma_token_root, lemma_user_str_unique, lemma_write_then_read, user_place, read_result};
use crate::id::{RecycleAllocator, kernel_grown, kernel_stack_area, kernel_stack_spec};
use crate::trap::{app_context, TRAP_WORDS, TRAP_A0, TRAP_KERNEL_SP};
use crate::loader::{AppTable, get_app_data_by_name, path_to_name, latin1_utf8};
use crate::elf::header_accepted;
use crate::page_table::{PageTable, PageTableEntry, vpn_key};
use crate::phys_mem::{PhysMem, lemma_same_outside_refl};
use crate::task::{TaskControlBlock, TaskControlBlockInner, TaskStatus, child_of, brk_moved, brk_growth_ok, can_fork, can_start, started_from, owns_frame, spaces_apart,
    lemma_beside_kernel, lemma_owned_allocated};


verus! {

/// A time as seconds and microseconds.
#[derive(Clone, Copy, PartialEq, Eq, Structural, Debug)]
pub struct TimeVal {
    /// seconds
    pub sec: u64,
    /// microseconds within the second
    pub usec: u64,
}

/// The 8 bytes of `v`, least significant first.
pub open spec fn le_bytes(v: u64) -> Seq<u8> {
    Seq::new(8, |k: int| ((v >> (8 * k) as u64) & 0xff) as u8)
}

impl TimeVal {
    /// The time `us` microseconds after the start.
    pub fn from_us(us: u64) -> (r: TimeVal)
        ensures
            r.sec == us / 1_000_000,
            r.usec == us % 1_000_000,
    {
        TimeVal { sec: us / 1_000_000, usec: us % 1_000_000 }
    }

    /// The bytes of the value as the kernel lays it out in memory: `sec` then `usec`, each as 8
    /// bytes, least significant first.
    pub open spec fn bytes_spec(self) -> Seq<u8> {
        le_bytes(self.sec) + le_bytes(self.usec)
    }

    /// The bytes of the value as the kernel lays it out in memory.
    pub fn to_bytes(&self) -> (r: Vec<u8>)
        ensures
            r@ == self.bytes_spec(),
    {
        let mut v: Vec<u8> = Vec::new();
        push_le_bytes(&mut v, self.sec);
        push_le_bytes(&mut v, self.usec);
        proof {
            assert(v@ =~= self.bytes_spec());
        }
        v
    }
}

/// Appends the 8 bytes of `x`, least significant first.
fn push_le_bytes(v: &mut Vec<u8>, x: u64)
    ensures
        final(v)@ == old(v)@ + le_bytes(x),
{
    let mut k: u64 = 0;
    while k < 8
        invariant
            0 <= k <= 8,
            v@ == old(v)@ + le_bytes(x).subrange(0, k as int),
        decreases 8 - k,
    {
        v.push(((x >> (8 * k)) & 0xff) as u8);
        proof {
            assert(v@ =~= old(v)@ + le_bytes(x).subrange(0, k + 1));
        }
        k = k + 1;
    }
    proof {
        assert(le_bytes(x).subrange(0, 8) =~= le_bytes(x));
    }
}

/// Writes the time `us` microseconds after the start, as a `TimeVal`, at the user address `ts`
/// of the address space with token `token`: 0, or -1, with nothing written, when the 16 bytes at
/// `ts` cannot all be reached.
pub fn sys_get_time(phys: &mut PhysMem, token: u64, us: u64, ts: u64, _tz: u64) -> (r: i64)
    requires
        old(phys).wf(),
    ensures
        final(phys).wf(),
        r == 0 <==> user_range_ok(*old(phys), token_root(token), ts as int, 16),
        r == 0 || r == -1,
        r == 0 ==> final(phys).first() == old(phys).first() && final(phys).bytes()
            == user_written(*old(phys), token_root(token), ts as int, TimeVal { sec: us / 1_000_000, usec: us % 1_000_000 }.bytes_spec(), 16),
        r == -1 ==> *final(phys) == *old(phys),
{
    let time_val = TimeVal::from_us(us);
    let bytes = time_val.to_bytes();
    match copy_to_user(phys, token, ts, bytes.as_slice()) {
        Ok(()) => 0,
        Err(()) => -1,
    }
}

/// What `sys_trace` returns, and whether it writes, for a request on the byte at `id` of the
/// address space with token `token`, whose call counts are `counts`.
pub open spec fn trace_result(phys: PhysMem, token: u64, counts: Seq<u32>, trace_request: u64, id: u64) -> i64 {
    if trace_request == 0 {
        match entry_of(phys, token_root(token), id as int) {
            Some(e) => if e.valid_spec() && e.readable_spec() && phys.has_frame(e.ppn_spec() as int) && id < u64::MAX {
                phys.byte(e.ppn_spec() as int, id as int % PAGE_SIZE as int) as i64
            } else {
                -1i64
            },
            None => -1i64,
        }
    } else if trace_request == 1 {
        match entry_of(phys, token_root(token), id as int) {
            Some(e) => if e.valid_spec() && e.writable_spec() && phys.has_frame(e.ppn_spec() as int) && id < u64::MAX {
                0i64
            } else {
                -1i64
            },
            None => -1i64,
        }
    } else if trace_request == 2 {
        if id < counts.len() { counts[id as int] as i64 } else { -1i64 }
    } else {
        -1i64
    }
}

/// Traces the calling process, whose address space has token `token` and whose call counts are
/// `syscall_times`: request 0 reads the byte at address `id`, request 1 writes the low byte of
/// `data` there, request 2 gives the number of calls of system call `id`. -1 when the byte
/// cannot be read or written, the call number has no count, or the request is another.
pub fn sys_trace(phys: &mut PhysMem, token: u64, syscall_times: &Vec<u32>, trace_request: u64, id: u64, data: u64) -> (r: i64)
    requires
        old(phys).wf(),
    ensures
        final(phys).wf(),
        r == trace_result(*old(phys), token, syscall_times@, trace_request, id),
        trace_request == 1 && r == 0 ==> final(phys).first() == old(phys).first()
            && final(phys).bytes() == user_written(*old(phys), token_root(token), id as int, seq![data as u8], 1),
        !(trace_request == 1 && r == 0) ==> *final(phys) == *old(phys),
{
    if trace_request == 0 {
        match read_virtaddr(phys, token, id) {
            Ok(val) => val,
            Err(()) => -1,
        }
    } else if trace_request == 1 {
        match write_virtaddr(phys, token, id, data as u8) {
            Ok(()) => 0,
            Err(()) => -1,
        }
    } else if trace_request == 2 {
        if id < syscall_times.len() as u64 {
            syscall_times[id as usize] as i64
        } else {
            -1
        }
    } else {
        -1
    }
}

/// Reading, with `sys_trace` request 0, a byte that request 1 has just written gives the low byte
/// of the data written, in a user address space `ms`, when the page is readable too and lies
/// below the trampoline page.
pub proof fn lemma_trace_write_then_read(ms: &MemorySet, mem: Memory, token: u64, counts: Seq<u32>, id: u64, data: u64, phys1: PhysMem)
    requires
        mem.wf(),
        ms.user_space_ok(mem),
        token_root(token) == ms.table().root(),
        (id as int % 0x80_0000_0000) / PAGE_SIZE as int <= trampoline_vpn() - 1,
        trace_result(mem.phys, token, counts, 1, id) == 0,
        entry_of(mem.phys, ms.table().root(), id as int) matches Some(e) && e.readable_spec(),
        phys1.first() == mem.phys.first(),
        phys1.bytes() == user_written(mem.phys, ms.table().root(), id as int, seq![data as u8], 1),
    ensures
        trace_result(phys1, token, counts, 0, id) == (data as u8) as i64,
{
    lemma_write_then_read(ms, mem, id, data as u8, phys1);
}

/// `sys_trace` request 0 is `read_virtaddr`: the byte at the address, or -1 where reading it
/// fails.
pub proof fn lemma_trace_read_is_read(phys: PhysMem, token: u64, counts: Seq<u32>, id: u64)
    ensures
        trace_result(phys, token, counts, 0, id) == match read_result(phys, token_root(token), id) {
            Ok(b) => b,
            Err(()) => -1i64,
        },
{
}

/// `sys_trace` request 0 gives the byte at the address whenever the entry of its page has the
/// valid (1) and readable (2) bits and names a frame in memory, whatever its other bits, writable
/// (4) and executable (8) among them; it gives -1 when the entry lacks the valid or the readable bit.
pub proof fn lemma_trace_reads_readable_pages(phys: PhysMem, token: u64, counts: Seq<u32>, id: u64)
    ensures
        (entry_of(phys, token_root(token), id as int) matches Some(e) && e.bits & 1 != 0 && e.bits & 2 != 0
            && phys.has_frame(e.ppn_spec() as int) && id < u64::MAX)
            ==> trace_result(phys, token, counts, 0, id) == phys.byte(
                entry_of(phys, token_root(token), id as int).unwrap().ppn_spec() as int, id as int % 4096) as i64,
        (entry_of(phys, token_root(token), id as int) matches Some(e) && (e.bits & 1 == 0 || e.bits & 2 == 0))
            ==> trace_result(phys, token, counts, 0, id) == -1,
        entry_of(phys, token_root(token), id as int) is None ==> trace_result(phys, token, counts, 0, id) == -1,
{
}

/// `sys_trace` request 2 counts the call that asks: once the call of system call `id` is
/// recorded, as the dispatcher does before it runs the call, the count that request 2 gives for
/// `id` is the count of before plus one (staying at its largest value once there).
pub proof fn lemma_trace_counts_itself(phys: PhysMem, token: u64, counts0: Seq<u32>, counts1: Seq<u32>, id: u64)
    requires
        id < counts0.len(),
        counts1 == counts0.update(id as int, if counts0[id as int] < u32::MAX { (counts0[id as int] + 1) as u32 } else { u32::MAX }),
    ensures
        trace_result(phys, token, counts1, 2, id) == (if counts0[id as int] < u32::MAX { counts0[id as int] + 1 } else { u32::MAX as int }) as i64,
{
}

/// The permission of a mapping asked for with `prot`: user, with R, W and X as bits 0, 1 and 2
/// of `prot` give.
pub open spec fn prot_perm(prot: u64) -> u8 {
    let p0 = 16u8;
    let p1 = if prot & 1 != 0 { p0 | 2u8 } else { p0 };
    let p2 = if prot & 2 != 0 { p1 | 4u8 } else { p1 };
    if prot & 4 != 0 { p2 | 8u8 } else { p2 }
}

/// The permission that `mmap` asks for with `prot` is the user flag (16) with read (2) exactly when
/// `prot` has bit 0, write (4) exactly when it has bit 1, and execute (8) exactly when it has
/// bit 2; never the valid bit or a global or accessed bit.
pub proof fn lemma_prot_perm_bits(prot: u64)
    ensures
        prot_perm(prot) & 16 != 0,
        (prot_perm(prot) & 2 != 0) == (prot & 1 != 0),
        (prot_perm(prot) & 4 != 0) == (prot & 2 != 0),
        (prot_perm(prot) & 8 != 0) == (prot & 4 != 0),
        prot_perm(prot) & 0xe1 == 0,
{
    let a: bool = prot & 1 != 0;
    let b: bool = prot & 2 != 0;
    let c: bool = prot & 4 != 0;
    let p1: u8 = if a { 16u8 | 2u8 } else { 16u8 };
    let p2: u8 = if b { p1 | 4u8 } else { p1 };
    let p3: u8 = if c { p2 | 8u8 } else { p2 };
    assert(p3 == prot_perm(prot));
    assert(p3 & 16 != 0 && (p3 & 2 != 0) == a && (p3 & 4 != 0) == b && (p3 & 8 != 0) == c && p3 & 0xe1 == 0) by (bit_vector)
        requires
            p1 == (if a { 16u8 | 2u8 } else { 16u8 }),
            p2 == (if b { p1 | 4u8 } else { p1 }),
            p3 == (if c { p2 | 8u8 } else { p2 });
}

/// A successful `sys_mmap(start, len, prot)` adds, last, a framed area over the range whose
/// permission is user, readable exactly when `prot & 1`, writable exactly when `prot & 2`, and
/// executable exactly when `prot & 4`.
pub proof fn lemma_mmap_permission(areas0: Seq<(int, int, MapType, u8)>, view0: Map<u64, PageTableEntry>,
    areas1: Seq<(int, int, MapType, u8)>, view1: Map<u64, PageTableEntry>, start: u64, len: u64, prot: u64)
    requires
        mmapped(areas0, view0, areas1, view1, start, len, prot),
    ensures
        areas1.len() == areas0.len() + 1,
        areas1.last().0 == floor_page(start as int),
        areas1.last().1 == ceil_page(start + len),
        areas1.last().2 == MapType::Framed,
        areas1.last().3 & 16 != 0,
        (areas1.last().3 & 2 != 0) == (prot & 1 != 0),
        (areas1.last().3 & 4 != 0) == (prot & 2 != 0),
        (areas1.last().3 & 8 != 0) == (prot & 4 != 0),
{
    lemma_prot_perm_bits(prot);
}

/// The pages that `sys_mmap` and `sys_munmap` work on: from the page of `start` to the page
/// boundary at or above `start + len`.
pub open spec fn mmap_pages(start: u64, len: u64) -> (int, int) {
    (floor_page(start as int), ceil_page(start + len))
}

/// `sys_mmap(start, len, prot)` may map its range in an address space with areas `areas` and
/// mapping `view`: `start` is page-aligned, `len` is not 0, `prot` asks for some of the three
/// permissions and nothing else, the range ends at or below the page under the trap context, and
/// none of its pages is mapped or lies in an area.
pub open spec fn mmap_allowed(areas: Seq<(int, int, MapType, u8)>, view: Map<u64, PageTableEntry>, start: u64, len: u64, prot: u64) -> bool {
    let s = mmap_pages(start, len).0;
    let e = mmap_pages(start, len).1;
    &&& start % PAGE_SIZE == 0
    &&& len > 0
    &&& prot & !7u64 == 0
    &&& prot & 7 != 0
    &&& start + len <= u64::MAX - PAGE_SIZE + 1
    &&& e <= 0x7ff_ffff
    &&& forall|v: u64| s <= v < e ==> !view.contains_key(#[trigger] vpn_key(v))
    &&& forall|i: int| 0 <= i < areas.len() ==> !(#[trigger] areas[i].0 < e && areas[i].1 > s)
}

/// What a successful `sys_mmap(start, len, prot)` made of an address space with areas `areas0` and
/// mapping `view0`, now with areas `areas1` and mapping `view1`: none of the range's pages was
/// mapped; the framed area over them, with the permission that `prot` asks for and the user flag,
/// is added; every mapping stays, and the pages of the range become mapped.
pub open spec fn mmapped(areas0: Seq<(int, int, MapType, u8)>, view0: Map<u64, PageTableEntry>,
    areas1: Seq<(int, int, MapType, u8)>, view1: Map<u64, PageTableEntry>, start: u64, len: u64, prot: u64) -> bool {
    let s = mmap_pages(start, len).0;
    let e = mmap_pages(start, len).1;
    &&& forall|v: u64| s <= v < e ==> !view0.contains_key(#[trigger] vpn_key(v))
    &&& areas1 == areas0.push((s, e, MapType::Framed, prot_perm(prot)))
    &&& view_extends(view0, view1)
    &&& forall|k: u64| #[trigger] view1.contains_key(k) <==> view0.contains_key(k) || key_in(k, s, e)
}

/// What a successful `sys_munmap(start, len)` made of an address space with areas `areas0` and
/// mapping `view0`, now with areas `areas1` and mapping `view1`: the first area that spans exactly
/// the range's pages is gone, and so are the mappings of those pages; every other mapping stays.
pub open spec fn munmapped(areas0: Seq<(int, int, MapType, u8)>, view0: Map<u64, PageTableEntry>,
    areas1: Seq<(int, int, MapType, u8)>, view1: Map<u64, PageTableEntry>, start: u64, len: u64) -> bool {
    let s = mmap_pages(start, len).0;
    let e = mmap_pages(start, len).1;
    &&& exists|i: int| #[trigger] is_first_match(areas0, i, s, Some(e)) && areas1 == areas0.remove(i)
    &&& forall|k: u64| #[trigger] view1.contains_key(k) <==> view0.contains_key(k) && !key_in(k, s, e)
    &&& forall|k: u64| #[trigger] view1.contains_key(k) ==> view1[k] == view0[k]
}

/// Maps `len` bytes from the page-aligned user address `start` of the calling process, on fresh
/// frames, with the permission that `prot` asks for. -1, with nothing changed, when `start` is not
/// aligned, `len` is 0, `prot` has bits other than the low three or none of them, the range
/// passes the last page below the trampoline, one of its pages is mapped or meets another area,
/// or frames run out.
pub fn sys_mmap(task: &mut TaskControlBlockInner, mem: &mut Memory, start: u64, len: u64, prot: u64) -> (r: i64)
    requires
        old(task).wf(*old(mem)),
        old(mem).wf(),
    ensures
        final(task).wf(*final(mem)),
        final(mem).wf(),
        r == 0 || r == -1,
        r == 0 ==> start % PAGE_SIZE == 0 && len > 0 && prot & !7u64 == 0 && prot & 7 != 0
            && mmapped(old(task).memory_set.areas_view(), old(task).memory_set.view_in(old(mem).phys),
                final(task).memory_set.areas_view(), final(task).memory_set.view_in(final(mem).phys), start, len, prot),
        mmap_allowed(old(task).memory_set.areas_view(), old(task).memory_set.view_in(old(mem).phys), start, len, prot)
            && old(mem).allocator.free_count() >= 3 * (mmap_pages(start, len).1 - mmap_pages(start, len).0) ==> r == 0,
        r == -1 ==> final(task).memory_set.areas_view() == old(task).memory_set.areas_view()
            && final(task).memory_set.view_in(final(mem).phys) == old(task).memory_set.view_in(old(mem).phys),
        start % PAGE_SIZE != 0 || len == 0 || prot & !7u64 != 0 || prot & 7 == 0 ==> r == -1,
        (exists|v: u64| mmap_pages(start, len).0 <= v < mmap_pages(start, len).1
            && #[trigger] old(task).memory_set.view_in(old(mem).phys).contains_key(vpn_key(v))) ==> r == -1,
        final(task).heap_bottom == old(task).heap_bottom && final(task).program_brk == old(task).program_brk,
        old(mem).phys.same_outside(&final(mem).phys, final(task).memory_set.table().frame_set() + unallocated(*old(mem))),
        forall|q: int| #[trigger] old(mem).allocated(q) ==> final(mem).allocated(q),
        r == 0 ==> forall|v: u64| mmap_pages(start, len).0 <= v < mmap_pages(start, len).1
            ==> !old(mem).allocated(#[trigger] final(task).memory_set.area_seq().last().frames()[v].ppn.0 as int),
        r == 0 ==> final(task).memory_set.area_seq().last().zeroed_between(final(mem).phys, mmap_pages(start, len).0, mmap_pages(start, len).1),
{
    proof {
        lemma_same_outside_refl(&mem.phys, task.memory_set.table().frame_set() + unallocated(*mem));
    }
    let start_va = VirtAddr(start);
    if !start_va.aligned() {
        return -1;
    }
    if len == 0 {
        return -1;
    }
    if (prot & !7u64 != 0) || (prot & 7 == 0) {
        return -1;
    }
    if start > u64::MAX - PAGE_SIZE + 1 || len > u64::MAX - PAGE_SIZE + 1 - start {
        return -1;
    }
    let s = start_va.floor();
    let e = VirtAddr(start + len).ceil();
    if e.0 > 0x7ff_ffff || is_mapped_any(&task.memory_set, &mem.phys, s, e) || task.memory_set.is_overlap(s, e) {
        return -1;
    }
    let mut perm = MapPermission::U();
    if prot & 1 != 0 {
        perm = perm.union(MapPermission::R());
    }
    if prot & 2 != 0 {
        perm = perm.union(MapPermission::W());
    }
    if prot & 4 != 0 {
        perm = perm.union(MapPermission::X());
    }
    let ghost areas0 = task.memory_set.areas_view();
    let ghost view0 = task.memory_set.view_in(mem.phys);
    let ok = task.memory_set.insert_framed_area(mem, s.to_va(), e.to_va(), perm);
    if !ok {
        return -1;
    }
    proof {
        let x = (s.0 as int, e.0 as int, MapType::Framed, perm.bits);
        assert(below_trampoline(x));
        lemma_space_push(areas0, view0, x, task.memory_set.view_in(mem.phys));
    }
    0
}

/// Whether one of the pages `[s, e)` is mapped in `ms`.
fn is_mapped_any(ms: &MemorySet, phys: &PhysMem, s: VirtPageNum, e: VirtPageNum) -> (r: bool)
    requires
        phys.wf(),
    ensures
        r == exists|v: u64| s.0 <= v < e.0 && #[trigger] ms.view_in(*phys).contains_key(vpn_key(v)),
{
    !ms.range_free(phys, s, e)
}

/// Unmaps the area of the calling process that spans exactly the pages from the page of the
/// page-aligned `start` to the page boundary at or above `start + len`, giving back its frames:
/// 0, or -1, with nothing changed, when `start` is not aligned, `len` is 0, the range passes the
/// last page boundary, or no area spans exactly these pages.
pub fn sys_munmap(task: &mut TaskControlBlockInner, mem: &mut Memory, start: u64, len: u64) -> (r: i64)
    requires
        old(task).wf(*old(mem)),
        old(mem).wf(),
    ensures
        final(task).wf(*final(mem)),
        final(mem).wf(),
        r == 0 || r == -1,
        r == 0 <==> start % PAGE_SIZE == 0 && len > 0 && start + len <= u64::MAX - PAGE_SIZE + 1
            && has_match(old(task).memory_set.areas_view(), mmap_pages(start, len).0, Some(mmap_pages(start, len).1)),
        r == -1 ==> final(task).memory_set.areas_view() == old(task).memory_set.areas_view()
            && final(task).memory_set.view_in(final(mem).phys) == old(task).memory_set.view_in(old(mem).phys),
        r == 0 ==> munmapped(old(task).memory_set.areas_view(), old(task).memory_set.view_in(old(mem).phys),
            final(task).memory_set.areas_view(), final(task).memory_set.view_in(final(mem).phys), start, len),
        final(task).heap_bottom == old(task).heap_bottom && final(task).program_brk == old(task).program_brk,
        old(mem).phys.same_outside(&final(mem).phys, old(task).memory_set.table().frame_set()),
        r == -1 ==> forall|q: int| #[trigger] final(mem).allocated(q) == old(mem).allocated(q),
        r == 0 ==> forall|i: int| #[trigger] is_first_match(old(task).memory_set.areas_view(), i, mmap_pages(start, len).0, Some(mmap_pages(start, len).1))
            && old(task).memory_set.area_seq()[i].kind() == MapType::Framed ==> forall|q: int| #[trigger] final(mem).allocated(q)
                == (old(mem).allocated(q) && !(exists|v: u64| old(task).memory_set.area_seq()[i].has_page(v)
                    && old(task).memory_set.area_seq()[i].frames()[v].ppn.0 == q)),
{
    proof {
        lemma_same_outside_refl(&mem.phys, task.memory_set.table().frame_set());
    }
    let start_va = VirtAddr(start);
    if !start_va.aligned() {
        return -1;
    }
    if len == 0 {
        return -1;
    }
    if start > u64::MAX - PAGE_SIZE + 1 || len > u64::MAX - PAGE_SIZE + 1 - start {
        return -1;
    }
    let start_vpn = start_va.floor();
    let end_vpn = VirtAddr(start + len).ceil();
    let ghost areas0 = task.memory_set.areas_view();
    let ghost view0 = task.memory_set.view_in(mem.phys);
    let ghost seq0 = task.memory_set.area_seq();
    let r = task.memory_set.munmap(mem, start_vpn, end_vpn);
    proof {
        if r == 0 {
            let i = choose|i: int| 0 <= i < areas0.len() && crate::memory_set::area_matches(#[trigger] areas0[i], start_vpn.0 as int, Some(end_vpn.0 as int));
            let i0 = choose|i: int| #[trigger] is_first_match(areas0, i, start_vpn.0 as int, Some(end_vpn.0 as int));
            assert(is_first_match(areas0, i0, start_vpn.0 as int, Some(end_vpn.0 as int))) by {
                crate::memory_set::lemma_has_first_match(areas0, start_vpn.0 as int, Some(end_vpn.0 as int));
            }
            crate::memory_set::lemma_first_match_unique(areas0, i0, start_vpn.0 as int, Some(end_vpn.0 as int));
            assert(task.memory_set.areas_view() =~= areas0.remove(i0)) by {
                assert(task.memory_set.area_seq() == seq0.remove(i0));
            }
            lemma_space_remove(areas0, view0, i0, task.memory_set.view_in(mem.phys));
            assert(mmap_pages(start, len) == (start_vpn.0 as int, end_vpn.0 as int));
            assert(is_first_match(areas0, i0, start_vpn.0 as int, Some(end_vpn.0 as int))
                && task.memory_set.areas_view() == areas0.remove(i0));
            let view1 = task.memory_set.view_in(mem.phys);
            assert(forall|k: u64| #[trigger] view1.contains_key(k) <==> view0.contains_key(k)
                && !key_in(k, start_vpn.0 as int, end_vpn.0 as int));
            assert(forall|k: u64| #[trigger] view1.contains_key(k) ==> view1[k] == view0[k]);
            assert(is_first_match(areas0, i0, mmap_pages(start, len).0, Some(mmap_pages(start, len).1)));
            assert(munmapped(areas0, view0, task.memory_set.areas_view(), view1, start, len));
        }
    }
    r
}

/// Moves the program break of the calling process by `size` bytes: the old break, or -1, with
/// nothing changed, as `change_program_brk` says.
pub fn sys_sbrk(task: &mut TaskControlBlockInner, mem: &mut Memory, size: i32) -> (r: i64)
    requires
        old(task).wf(*old(mem)),
        old(mem).wf(),
    ensures
        final(task).wf(*final(mem)),
        final(mem).wf(),
        final(task).heap_bottom == old(task).heap_bottom,
        (r == old(task).program_brk as i64 && final(task).program_brk == old(task).program_brk + size
            && (size != 0 ==> brk_moved(old(task).memory_set.areas_view(), final(task).memory_set.areas_view(), old(task).heap_bottom as int,
                old(task).program_brk + size)))
            || (r == -1 && final(task).program_brk == old(task).program_brk
                && final(task).memory_set.areas_view() == old(task).memory_set.areas_view()
                && final(task).memory_set.view_in(final(mem).phys) == old(task).memory_set.view_in(old(mem).phys)),
        old(task).program_brk + size < old(task).heap_bottom ==> r == -1 && final(task).program_brk == old(task).program_brk,
        size == 0 ==> *final(task) == *old(task) && *final(mem) == *old(mem),
        old(mem).phys.same_outside(&final(mem).phys, final(task).memory_set.table().frame_set() + unallocated(*old(mem))),
        size == 0 && has_match(old(task).memory_set.areas_view(), floor_page(old(task).heap_bottom as int), None)
            ==> r == old(task).program_brk as i64,
        !has_match(old(task).memory_set.areas_view(), floor_page(old(task).heap_bottom as int), None) ==> r == -1
            && final(task).program_brk == old(task).program_brk,
        size >= 0 && old(task).program_brk + size <= u64::MAX - PAGE_SIZE + 1 ==> forall|i: int|
            #[trigger] is_first_match(old(task).memory_set.areas_view(), i, floor_page(old(task).heap_bottom as int), None)
                && brk_growth_ok(*old(task), *old(mem), size as int, i) ==> final(task).program_brk == old(task).program_brk + size,
        size < 0 && old(task).program_brk + size >= old(task).heap_bottom ==> forall|i: int|
            #[trigger] is_first_match(old(task).memory_set.areas_view(), i, floor_page(old(task).heap_bottom as int), None)
                ==> (final(task).program_brk == old(task).program_brk + size <==> old(task).memory_set.areas_view()[i].0
                    <= ceil_page(old(task).program_brk + size) <= old(task).memory_set.areas_view()[i].1),
        size > 0 && final(task).program_brk == old(task).program_brk + size ==> forall|i: int| #[trigger] is_first_match(old(task).memory_set.areas_view(), i, floor_page(old(task).heap_bottom as int), None)
            ==> final(task).memory_set.area_seq()[i].zeroed_between(final(mem).phys, old(task).memory_set.areas_view()[i].1, ceil_page(old(task).program_brk + size)),
{
    match task.change_program_brk(mem, size) {
        Some(old_brk) => old_brk as i64,
        None => -1,
    }
}

/// Gives up the processor: the calling task becomes ready, and the call returns 0.
pub fn sys_yield(task: &mut TaskControlBlockInner) -> (r: i64)
    ensures
        r == 0,
        final(task).task_status == TaskStatus::Ready,
        final(task).memory_set == old(task).memory_set,
        final(task).program_brk == old(task).program_brk,
        final(task).children == old(task).children,
{
    task.task_status = TaskStatus::Ready;
    0
}

/// Identifier of the first process, which must never exit.
pub const IDLE_PID: u64 = 0;

/// Exits the calling task, with identifier `pid`, another process than the first (whose exit
/// stops the system), with `exit_code`: the task becomes a zombie with the exit code, gives back
/// the frames of its areas, and hands its children over to the first process `init`, which
/// takes them after its own and becomes their parent: `orphan_parents` holds the parent of each
/// child, in the order of the task's children, and each becomes `IDLE_PID`. The children are
/// returned, and the task keeps none.
pub fn sys_exit(task: &mut TaskControlBlockInner, init: &mut TaskControlBlockInner, orphan_parents: &mut Vec<Option<u64>>,
    mem: &mut Memory, pid: u64, exit_code: i32) -> (r: Vec<u64>)
    requires
        old(task).memory_set.wf(*old(mem)),
        old(mem).wf(),
        pid != IDLE_PID,
        old(orphan_parents)@.len() == old(task).children@.len(),
    ensures
        final(orphan_parents)@.len() == old(task).children@.len(),
        forall|i: int| 0 <= i < old(task).children@.len() ==> #[trigger] final(orphan_parents)@[i] == Some(IDLE_PID),
        final(mem).wf(),
        final(task).memory_set.wf(*final(mem)),
        r@ == old(task).children@,
        final(task).children@ == Seq::<u64>::empty(),
        final(task).task_status == TaskStatus::Zombie,
        final(task).exit_code == exit_code,
        final(task).memory_set.area_seq().len() == 0,
        final(task).memory_set.table() == old(task).memory_set.table(),
        forall|q: int| #[trigger] final(mem).allocated(q) == (old(mem).allocated(q) && !old(task).memory_set.holds_data_frame(q)),
        final(init).children@ == old(init).children@ + old(task).children@,
        *final(init) == (TaskControlBlockInner { children: final(init).children, ..*old(init) }),
{
    task.task_status = TaskStatus::Zombie;
    task.exit_code = exit_code;
    let mut children: Vec<u64> = Vec::new();
    std::mem::swap(&mut children, &mut task.children);
    let ghost ms0 = task.memory_set;
    let ghost mem0 = *mem;
    task.memory_set.recycle_data_pages(mem);
    proof {
        assert forall|q: int| #[trigger] mem.allocated(q) == (mem0.allocated(q) && !ms0.holds_data_frame(q)) by {
            if mem0.allocated(q) && !mem.allocated(q) {
                let (i, v) = choose|i: int, v: u64| 0 <= i < ms0.area_seq().len() && ms0.area_seq()[i].kind() == MapType::Framed
                    && ms0.area_seq()[i].has_page(v) && ms0.area_seq()[i].frames()[v].ppn.0 == q;
                assert(ms0.holds_data_frame(q));
            }
            if ms0.holds_data_frame(q) {
                let (i, v) = choose|i: int, v: u64| 0 <= i < ms0.area_seq().len() && ms0.area_seq()[i].kind() == MapType::Framed
                    && ms0.area_seq()[i].has_page(v) && #[trigger] ms0.area_seq()[i].frames()[v].ppn.0 == q;
                assert(!mem.allocated(ms0.area_seq()[i].frames()[v].ppn.0 as int));
            }
        }
    }
    init.adopt(&children);
    let mut i: usize = 0;
    while i < orphan_parents.len()
        invariant
            0 <= i <= orphan_parents@.len(),
            orphan_parents@.len() == children@.len(),
            forall|j: int| 0 <= j < i ==> #[trigger] orphan_parents@[j] == Some(IDLE_PID),
        decreases orphan_parents@.len() - i,
    {
        orphan_parents.set(i, Some(IDLE_PID));
        i = i + 1;
    }
    children
}

/// Forks the process `task`, as `TaskControlBlock::fork` does: the child's trap context returns 0
/// and uses the child's kernel stack. Returns the child's identifier with the child, for the
/// caller to hand to the scheduler; -1 and no child when the fork fails.
pub fn sys_fork(task: &mut TaskControlBlock, mem: &mut Memory, kernel_space: &mut MemorySet, pids: &mut RecycleAllocator,
    kstacks: &mut RecycleAllocator, strampoline: PhysAddr) -> (r: (i64, Option<TaskControlBlock>))
    requires
        old(task).wf(*old(mem), old(kernel_space)),
        old(kernel_space).wf(*old(mem)),
        old(mem).wf(),
        old(pids).wf(),
        old(kstacks).wf(),
        strampoline.0 % PAGE_SIZE == 0,
    ensures
        final(mem).wf(),
        final(kernel_space).wf(*final(mem)),
        final(pids).wf(),
        final(kstacks).wf(),
        kernel_grown(old(kernel_space), *old(mem), final(kernel_space), *final(mem)),
        final(task).wf(*final(mem), final(kernel_space)),
        final(task).inner.memory_set == old(task).inner.memory_set,
        final(task).inner.memory_set.view_in(final(mem).phys) == old(task).inner.memory_set.view_in(old(mem).phys),
        final(task).pid == old(task).pid,
        can_fork(old(task), *old(mem), old(kernel_space), old(pids), old(kstacks)) ==> r.1 is Some,
        r.1 matches Some(child) ==> {
            &&& r.0 == child.pid.0 as i64
            &&& child.wf(*final(mem), final(kernel_space))
            &&& child_of(child, *old(task), *final(task), *old(mem), *final(mem))
            &&& final(task).inner.children@ == old(task).inner.children@.push(child.pid.0)
            &&& !old(pids).in_use(child.pid.0 as int) && final(pids).in_use(child.pid.0 as int)
        },
        r.1 is None ==> {
            &&& r.0 == -1
            &&& final(task).inner.children == old(task).inner.children
            &&& forall|id: int| #[trigger] final(pids).in_use(id) == old(pids).in_use(id)
            &&& final(kernel_space).areas_view() == old(kernel_space).areas_view()
        },
{
    match task.fork(mem, kernel_space, pids, kstacks, strampoline) {
        Some(child) => {
            let pid = child.pid.0 as i64;
            (pid, Some(child))
        },
        None => (-1, None),
    }
}

/// Replaces the program of `task` by the application whose name is the string at the user address
/// `path` of the task's address space, each of its bytes read as one character (`path_to_name`),
/// as `TaskControlBlock::exec` does, trap context included. Returns 0 with the entry point and the
/// stack top; -1, with nothing of the task changed, when no string can be read there, no
/// application has that name, or its program cannot be loaded. The file of the application so
/// named must have a header that `xmas_elf` accepts.
pub fn sys_exec(task: &mut TaskControlBlock, mem: &mut Memory, kernel_space: &MemorySet, apps: &AppTable, path: u64,
    strampoline: PhysAddr, sstatus: u64, trap_handler: u64) -> (r: (i64, Option<(u64, u64)>))
    requires
        old(task).wf(*old(mem), kernel_space),
        kernel_space.wf(*old(mem)),
        old(mem).wf(),
        apps.wf(),
        strampoline.0 % PAGE_SIZE == 0,
        forall|name: Seq<u8>| #[trigger] user_str(old(mem).phys, old(task).inner.memory_set.table().root(), path as int, name)
            ==> (apps.first_named(latin1_utf8(name)) matches Some(i) ==> header_accepted(apps.data@[i]@)),
    ensures
        final(mem).wf(),
        final(task).wf(*final(mem), kernel_space),
        kernel_space.wf(*final(mem)),
        kernel_space.view_in(final(mem).phys) == kernel_space.view_in(old(mem).phys),
        final(task).pid == old(task).pid,
        final(task).kernel_stack == old(task).kernel_stack,
        r.1 is Some <==> r.0 == 0,
        r.1 is None <==> r.0 == -1,
        (forall|name: Seq<u8>| !#[trigger] user_str(old(mem).phys, old(task).inner.memory_set.table().root(), path as int, name))
            ==> r.1 is None,
        forall|name: Seq<u8>| #[trigger] user_str(old(mem).phys, old(task).inner.memory_set.table().root(), path as int, name) ==>
            match apps.first_named(latin1_utf8(name)) {
                None => r.1 is None,
                Some(i) => {
                    &&& elf_loadable(apps.data@[i]@) && old(mem).allocator.free_count() >= 3 + 3 * pages_of(elf_areas(apps.data@[i]@))
                        ==> r.1 is Some
                    &&& r.1 matches Some((entry, sp)) ==> {
                        &&& elf_loadable(apps.data@[i]@)
                        &&& final(task).inner.memory_set.areas_view() == elf_areas(apps.data@[i]@)
                        &&& entry == elf_entry(apps.data@[i]@)
                        &&& sp == stack_top(elf_last_end(apps.data@[i]@, elf_ph_count(apps.data@[i]@)))
                        &&& final(task).inner.base_size == sp
                        &&& segments_loaded(final(task).inner.memory_set.area_seq(), final(mem).phys, apps.data@[i]@, elf_ph_count(apps.data@[i]@))
                        &&& forall|j: int| 0 <= j < TRAP_WORDS ==> #[trigger] final(mem).phys.word(final(task).inner.trap_cx_ppn.0 as int, j)
                            == app_context(entry, sp, sstatus, 0x8000_0000_0000_0000u64 | (kernel_space.table().root() as u64),
                                kernel_stack_spec(old(task).kernel_stack.slot()).1 as u64, trap_handler)[j]
                    }
                },
            },
        r.1 is None ==> final(task).inner.memory_set == old(task).inner.memory_set
            && final(task).inner.trap_cx_ppn == old(task).inner.trap_cx_ppn
            && final(task).inner.base_size == old(task).inner.base_size
            && final(task).inner.memory_set.view_in(final(mem).phys) == old(task).inner.memory_set.view_in(old(mem).phys),
        final(task).inner.heap_bottom == old(task).inner.heap_bottom,
        final(task).inner.program_brk == old(task).inner.program_brk,
        final(task).inner.parent == old(task).inner.parent,
        final(task).inner.children == old(task).inner.children,
        final(task).inner.priority == old(task).inner.priority,
        final(task).inner.syscall_times == old(task).inner.syscall_times,
        final(task).inner.task_status == old(task).inner.task_status,
        final(task).inner.exit_code == old(task).inner.exit_code,
        final(task).inner.stride == old(task).inner.stride,
{
    let ghost root = task.inner.memory_set.table().root();
    let token = task.inner.get_user_token();
    proof {
        task.inner.memory_set.table().lemma_frames_allocated(*mem);
        lemma_token_root(root as u64);
    }
    let name = match translated_str(&mem.phys, token, path) {
        None => return (-1, None),
        Some(n) => n,
    };
    proof {
        assert forall|other: Seq<u8>| #[trigger] user_str(mem.phys, root, path as int, other) implies other == name@ by {
            lemma_user_str_unique(mem.phys, root, path as int, other, name@);
        }
    }
    let app_name = path_to_name(name.as_slice());
    let data = match get_app_data_by_name(apps, app_name.as_slice()) {
        None => return (-1, None),
        Some(d) => d,
    };
    match task.exec(mem, kernel_space, data, strampoline, sstatus, trap_handler) {
        None => (-1, None),
        Some((entry, sp)) => (0, Some((entry, sp))),
    }
}

/// Starts a child of `task` that runs the application whose name is the string at the user address
/// `path` of the task's address space, each of its bytes read as one character (`path_to_name`):
/// a process made by `TaskControlBlock::new`, trap context included, whose parent is `task`, whose
/// priority is the task's, and whose identifier the task's children gain. Returns the child's
/// identifier, with the child and its entry point for the caller to schedule it; -1 and no child
/// when no string can be read there, the string is empty, no application has that name, or the
/// process cannot be made. The file of the application so named must have a header that
/// `xmas_elf` accepts.
pub fn sys_spawn(task: &mut TaskControlBlock, mem: &mut Memory, kernel_space: &mut MemorySet, pids: &mut RecycleAllocator,
    kstacks: &mut RecycleAllocator, apps: &AppTable, path: u64, strampoline: PhysAddr, sstatus: u64, trap_handler: u64) -> (r: (i64, Option<(TaskControlBlock, u64)>))
    requires
        old(task).wf(*old(mem), old(kernel_space)),
        old(kernel_space).wf(*old(mem)),
        old(mem).wf(),
        old(pids).wf(),
        old(kstacks).wf(),
        apps.wf(),
        strampoline.0 % PAGE_SIZE == 0,
        forall|name: Seq<u8>| #[trigger] user_str(old(mem).phys, old(task).inner.memory_set.table().root(), path as int, name)
            ==> (name.len() > 0 ==> (apps.first_named(latin1_utf8(name)) matches Some(i) ==> header_accepted(apps.data@[i]@))),
    ensures
        final(mem).wf(),
        final(kernel_space).wf(*final(mem)),
        final(pids).wf(),
        final(kstacks).wf(),
        kernel_grown(old(kernel_space), *old(mem), final(kernel_space), *final(mem)),
        final(task).wf(*final(mem), final(kernel_space)),
        final(task).inner.memory_set == old(task).inner.memory_set,
        final(task).inner.memory_set.view_in(final(mem).phys) == old(task).inner.memory_set.view_in(old(mem).phys),
        final(task).pid == old(task).pid,
        final(task).kernel_stack == old(task).kernel_stack,
        final(task).inner.trap_cx_ppn == old(task).inner.trap_cx_ppn,
        final(task).inner.base_size == old(task).inner.base_size,
        final(task).inner.heap_bottom == old(task).inner.heap_bottom,
        final(task).inner.program_brk == old(task).inner.program_brk,
        final(task).inner.task_status == old(task).inner.task_status,
        final(task).inner.parent == old(task).inner.parent,
        final(task).inner.priority == old(task).inner.priority,
        final(task).inner.syscall_times == old(task).inner.syscall_times,
        final(task).inner.exit_code == old(task).inner.exit_code,
        final(task).inner.stride == old(task).inner.stride,
        (forall|name: Seq<u8>| !#[trigger] user_str(old(mem).phys, old(task).inner.memory_set.table().root(), path as int, name))
            ==> r.1 is None,
        forall|name: Seq<u8>| #[trigger] user_str(old(mem).phys, old(task).inner.memory_set.table().root(), path as int, name) ==> {
            &&& name.len() == 0 ==> r.1 is None
            &&& apps.first_named(latin1_utf8(name)) is None ==> r.1 is None
            &&& r.1 matches Some((child, entry)) ==> apps.first_named(latin1_utf8(name)) matches Some(i)
                && elf_loadable(apps.data@[i]@) && started_from(child, entry, apps.data@[i]@, *final(mem))
            &&& (name.len() > 0 && (apps.first_named(latin1_utf8(name)) matches Some(i)
                && can_start(apps.data@[i]@, *old(mem), old(kernel_space), old(pids), old(kstacks)))) ==> r.1 is Some
        },
        r.1 matches Some((child, entry)) ==> {
            &&& r.0 == child.pid.0 as i64
            &&& child.wf(*final(mem), final(kernel_space))
            &&& forall|q: int| #[trigger] owns_frame(&child.inner.memory_set, q) ==> !old(mem).allocated(q)
            &&& spaces_apart(&child.inner.memory_set, &final(task).inner.memory_set)
            &&& child.inner.parent == Some(old(task).pid.0)
            &&& child.inner.priority == old(task).inner.priority
            &&& final(task).inner.children@ == old(task).inner.children@.push(child.pid.0)
            &&& !old(pids).in_use(child.pid.0 as int) && final(pids).in_use(child.pid.0 as int)
            &&& !old(kstacks).in_use(child.kernel_stack.slot()) && final(kstacks).in_use(child.kernel_stack.slot())
            &&& final(kernel_space).areas_view() == old(kernel_space).areas_view().push(kernel_stack_area(child.kernel_stack.slot()))
            &&& forall|j: int| 0 <= j < TRAP_WORDS ==> #[trigger] final(mem).phys.word(child.inner.trap_cx_ppn.0 as int, j)
                == app_context(entry, child.inner.base_size, sstatus, 0x8000_0000_0000_0000u64 | (final(kernel_space).table().root() as u64),
                    kernel_stack_spec(child.kernel_stack.slot()).1 as u64, trap_handler)[j]
        },
        r.1 is None ==> {
            &&& r.0 == -1
            &&& final(task).inner.children == old(task).inner.children
            &&& forall|id: int| #[trigger] final(pids).in_use(id) == old(pids).in_use(id)
            &&& forall|id: int| #[trigger] final(kstacks).in_use(id) == old(kstacks).in_use(id)
            &&& final(kernel_space).areas_view() == old(kernel_space).areas_view()
            &&& final(kernel_space).view_in(final(mem).phys) == old(kernel_space).view_in(old(mem).phys)
        },
{
    let ghost mem0 = *mem;
    let ghost ks0 = *kernel_space;
    let ghost root = task.inner.memory_set.table().root();
    let token = task.inner.get_user_token();
    proof {
        task.inner.memory_set.table().lemma_frames_allocated(*mem);
        lemma_token_root(root as u64);
        lemma_same_outside_refl(&mem0.phys, kernel_space.table().frame_set() + unallocated(mem0));
    }
    let name = match translated_str(&mem.phys, token, path) {
        None => return (-1, None),
        Some(n) => n,
    };
    proof {
        assert forall|other: Seq<u8>| #[trigger] user_str(mem.phys, root, path as int, other) implies other == name@ by {
            lemma_user_str_unique(mem.phys, root, path as int, other, name@);
        }
    }
    if name.len() == 0 {
        return (-1, None);
    }
    let app_name = path_to_name(name.as_slice());
    let data = match get_app_data_by_name(apps, app_name.as_slice()) {
        None => return (-1, None),
        Some(d) => d,
    };
    let (mut child, entry) = match TaskControlBlock::new(data, mem, kernel_space, pids, kstacks, strampoline, sstatus, trap_handler) {
        None => {
            proof {
                lemma_beside_kernel(&task.inner.memory_set, &ks0, mem0, kernel_space, *mem);
            }
            return (-1, None);
        },
        Some(made) => made,
    };
    proof {
        lemma_beside_kernel(&task.inner.memory_set, &ks0, mem0, kernel_space, *mem);
        lemma_owned_allocated(&task.inner.memory_set, mem0);
        assert forall|q: int| !(owns_frame(&child.inner.memory_set, q) && owns_frame(&task.inner.memory_set, q)) by {}
    }
    child.inner.parent = Some(task.pid.0);
    child.inner.priority = task.inner.priority;
    task.inner.children.push(child.pid.0);
    let pid = child.pid.0 as i64;
    (pid, Some((child, entry)))
}

/// Unmapping, with `sys_munmap`, a range that `sys_mmap` has just mapped gives back the areas and
/// the mapping of before.
pub proof fn lemma_mmap_munmap(areas0: Seq<(int, int, MapType, u8)>, view0: Map<u64, PageTableEntry>,
    areas1: Seq<(int, int, MapType, u8)>, view1: Map<u64, PageTableEntry>,
    areas2: Seq<(int, int, MapType, u8)>, view2: Map<u64, PageTableEntry>, start: u64, len: u64, prot: u64)
    requires
        space_ok(areas0, view0),
        start % PAGE_SIZE == 0,
        len > 0,
        start + len <= u64::MAX,
        mmapped(areas0, view0, areas1, view1, start, len, prot),
        munmapped(areas1, view1, areas2, view2, start, len),
    ensures
        areas2 == areas0,
        view2 == view0,
{
    let s = mmap_pages(start, len).0;
    let e = mmap_pages(start, len).1;
    assert(s < e) by (nonlinear_arith)
        requires
            s == floor_page(start as int),
            e == ceil_page(start + len),
            start % 4096 == 0,
            len > 0;
    let i = choose|i: int| #[trigger] is_first_match(areas1, i, s, Some(e)) && areas2 == areas1.remove(i);
    if i < areas0.len() {
        assert(areas1[i] == areas0[i]);
        assert(key_in(vpn_key(s as u64), areas0[i].0, areas0[i].1));
        assert(view0.contains_key(vpn_key(s as u64)));
    }
    assert(i == areas0.len());
    assert(areas2 =~= areas0);
    assert forall|k: u64| #[trigger] view2.contains_key(k) <==> view0.contains_key(k) by {
        if view0.contains_key(k) && key_in(k, s, e) {
            let v = choose|v: u64| s <= v < e && #[trigger] vpn_key(v) == k;
            assert(!view0.contains_key(vpn_key(v)));
        }
    }
    assert(view2 =~= view0);
}

} // verus!
