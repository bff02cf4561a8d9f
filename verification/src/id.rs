//! Process identifiers and kernel stacks: a recycling allocator of numbers, and the place of each
//! kernel stack below the trampoline.
use vstd::prelude::*;
use crate::address::{VirtAddr, floor_page, ceil_page};
use crate::config::{KERNEL_STACK_SIZE, PAGE_SIZE, TRAMPOLINE};
use crate::frame_allocator::Memory;
use crate::memory_set::{MapPermission, MapType, MemorySet, area_over, key_in, unallocated};
use crate::phys_mem::lemma_same_outside_refl;
use crate::page_table::vpn_key;

verus! {

/// Hands out the numbers 0, 1, 2, ..., and hands out again, last freed first, the numbers given
/// back.
pub struct RecycleAllocator {
    current: u64,
    recycled: Vec<u64>,
}

impl RecycleAllocator {
    /// The next number never handed out.
    pub closed spec fn current(&self) -> int {
        self.current as int
    }

    /// The numbers given back, the last one to be handed out next.
    pub closed spec fn recycled(&self) -> Seq<u64> {
        self.recycled@
    }

    /// The numbers given back are distinct and were handed out.
    pub open spec fn wf(&self) -> bool {
        &&& 0 <= self.current()
        &&& forall|i: int, j: int| 0 <= i < j < self.recycled().len() ==> self.recycled()[i] != self.recycled()[j]
        &&& forall|i: int| 0 <= i < self.recycled().len() ==> #[trigger] self.recycled()[i] < self.current()
    }

    /// The number that `allocate` hands out next.
    pub open spec fn next(&self) -> int {
        if self.recycled().len() > 0 {
            self.recycled().last() as int
        } else {
            self.current()
        }
    }

    /// Number `id` is in use: handed out and not given back.
    pub open spec fn in_use(&self, id: int) -> bool {
        0 <= id < self.current() && !self.recycled().contains(id as u64)
    }

    /// An allocator that has handed out nothing.
    pub fn new() -> (r: Self)
        ensures
            r.wf(),
            r.current() == 0,
            r.recycled() == Seq::<u64>::empty(),
    {
        RecycleAllocator { current: 0, recycled: Vec::new() }
    }

    /// `allocate` can hand out a number: one was given back, or the next new number is not the
    /// last one.
    pub open spec fn has_next(&self) -> bool {
        self.recycled().len() > 0 || self.current() < u64::MAX
    }

    /// Whether `allocate` can hand out a number.
    pub fn can_allocate(&self) -> (r: bool)
        ensures
            r == self.has_next(),
    {
        self.recycled.len() > 0 || self.current < u64::MAX
    }

    /// Hands out the number given back last, or else the next new number.
    pub fn allocate(&mut self) -> (r: u64)
        requires
            old(self).wf(),
            old(self).recycled().len() > 0 || old(self).current() < u64::MAX,
        ensures
            final(self).wf(),
            old(self).recycled().len() > 0 ==> r == old(self).recycled().last()
                && final(self).recycled() == old(self).recycled().drop_last()
                && final(self).current() == old(self).current(),
            old(self).recycled().len() == 0 ==> r == old(self).current()
                && final(self).recycled() == old(self).recycled()
                && final(self).current() == old(self).current() + 1,
            !old(self).in_use(r as int),
            final(self).in_use(r as int),
            forall|id: int| id != r ==> #[trigger] final(self).in_use(id) == old(self).in_use(id),
    {
        let ghost r0 = self.recycled@;
        match self.recycled.pop() {
            Some(id) => {
                proof {
                    assert(self.recycled@ =~= r0.drop_last());
                    assert(r0[r0.len() - 1] == id);
                    assert(!self.recycled@.contains(id)) by {
                        if self.recycled@.contains(id) {
                            let k = choose|k: int| 0 <= k < self.recycled@.len() && self.recycled@[k] == id;
                            assert(r0[k] == r0[r0.len() - 1]);
                        }
                    }
                    assert forall|x: int| x != id implies #[trigger] self.in_use(x) == old(self).in_use(x) by {
                        if 0 <= x < self.current() && r0.contains(x as u64) {
                            let k = choose|k: int| 0 <= k < r0.len() && r0[k] == x as u64;
                            assert(k != r0.len() - 1);
                            assert(self.recycled@[k] == x as u64);
                        }
                        if self.recycled@.contains(x as u64) {
                            let k = choose|k: int| 0 <= k < self.recycled@.len() && self.recycled@[k] == x as u64;
                            assert(r0[k] == x as u64);
                        }
                    }
                    assert forall|i: int| 0 <= i < self.recycled().len() implies #[trigger] self.recycled()[i] < self.current() by {
                        assert(self.recycled()[i] == r0[i]);
                    }
                }
                id
            },
            None => {
                self.current = self.current + 1;
                proof {
                    assert(!self.recycled@.contains((self.current - 1) as u64));
                }
                self.current - 1
            },
        }
    }

    /// Takes back number `id`, which must be in use.
    pub fn dealloc(&mut self, id: u64)
        requires
            old(self).wf(),
            old(self).in_use(id as int),
        ensures
            final(self).wf(),
            final(self).recycled() == old(self).recycled().push(id),
            final(self).current() == old(self).current(),
            !final(self).in_use(id as int),
            forall|x: int| x != id ==> #[trigger] final(self).in_use(x) == old(self).in_use(x),
    {
        let ghost r0 = self.recycled@;
        self.recycled.push(id);
        proof {
            assert(self.recycled@[r0.len() as int] == id);
            assert forall|i: int, j: int| 0 <= i < j < self.recycled().len() implies self.recycled()[i] != self.recycled()[j] by {
                if j == r0.len() {
                    assert(r0[i] == self.recycled()[i]);
                    assert(r0.contains(r0[i]));
                } else {
                    assert(r0[i] != r0[j]);
                }
            }
            assert forall|i: int| 0 <= i < self.recycled().len() implies #[trigger] self.recycled()[i] < self.current() by {
                if i < r0.len() {
                    assert(self.recycled()[i] == r0[i]);
                }
            }
            assert forall|x: int| x != id implies #[trigger] self.in_use(x) == old(self).in_use(x) by {
                if r0.contains(x as u64) {
                    let k = choose|k: int| 0 <= k < r0.len() && r0[k] == x as u64;
                    assert(self.recycled@[k] == x as u64);
                }
                if 0 <= x < self.current() && self.recycled@.contains(x as u64) {
                    let k = choose|k: int| 0 <= k < self.recycled@.len() && self.recycled@[k] == x as u64;
                    if k < r0.len() {
                        assert(r0[k] == x as u64);
                    }
                }
            }
        }
    }
}

/// A process identifier in use.
pub struct PidHandle(pub u64);

/// Hands out a process identifier from `allocator`.
pub fn pid_alloc(allocator: &mut RecycleAllocator) -> (r: PidHandle)
    requires
        old(allocator).wf(),
        old(allocator).recycled().len() > 0 || old(allocator).current() < u64::MAX,
    ensures
        final(allocator).wf(),
        !old(allocator).in_use(r.0 as int),
        final(allocator).in_use(r.0 as int),
        forall|id: int| id != r.0 ==> #[trigger] final(allocator).in_use(id) == old(allocator).in_use(id),
{
    PidHandle(allocator.allocate())
}

/// Number of kernel stacks that fit between the trampoline and the upper half's start.
pub open spec fn kernel_stack_slots() -> int {
    0x155_5555
}

/// Bottom and top of the kernel stack of application `app_id`: stacks go down from the
/// trampoline, each `KERNEL_STACK_SIZE` bytes with a guard page above it.
pub open spec fn kernel_stack_spec(app_id: int) -> (int, int) {
    let top = TRAMPOLINE - app_id * (KERNEL_STACK_SIZE + PAGE_SIZE);
    (top - KERNEL_STACK_SIZE, top)
}

/// Bottom and top of the kernel stack of application `app_id`.
pub fn kernel_stack_position(app_id: u64) -> (r: (u64, u64))
    requires
        app_id < kernel_stack_slots(),
    ensures
        r.0 == kernel_stack_spec(app_id as int).0,
        r.1 == kernel_stack_spec(app_id as int).1,
{
    proof {
        assert(app_id * (KERNEL_STACK_SIZE + PAGE_SIZE) <= 0x155_5555 * 12288) by (nonlinear_arith)
            requires app_id < 0x155_5555;
    }
    let top = TRAMPOLINE - app_id * (KERNEL_STACK_SIZE + PAGE_SIZE);
    let bottom = top - KERNEL_STACK_SIZE;
    (bottom, top)
}

/// The pages of the kernel stack of application `app_id`, in the 39-bit space: the area it gets
/// in the kernel address space, readable and writable.
pub open spec fn kernel_stack_area(app_id: int) -> (int, int, MapType, u8) {
    let (b, t) = kernel_stack_spec(app_id);
    area_over((b % 0x80_0000_0000) as u64, (t % 0x80_0000_0000) as u64, MapType::Framed, 6)
}

/// The kernel stack of a process, known by the number of its slot.
pub struct KernelStack {
    pid: u64,
}

impl KernelStack {
    /// The slot number.
    pub closed spec fn slot(&self) -> int {
        self.pid as int
    }

    /// Maps the kernel stack of the process with identifier `pid_handle` in `kernel_space`, on
    /// fresh frames. `None`, with nothing mapped, when one of its pages is mapped already or a
    /// frame cannot be had.
    pub fn new(pid_handle: &PidHandle, kernel_space: &mut MemorySet, mem: &mut Memory) -> (r: Option<KernelStack>)
        requires
            old(kernel_space).wf(*old(mem)),
            old(mem).wf(),
            pid_handle.0 < kernel_stack_slots(),
        ensures
            final(kernel_space).wf(*final(mem)),
            final(mem).wf(),
            kernel_grown(old(kernel_space), *old(mem), final(kernel_space), *final(mem)),
            r matches Some(ks) ==> ks.slot() == pid_handle.0
                && final(kernel_space).areas_view() == old(kernel_space).areas_view().push(kernel_stack_area(pid_handle.0 as int)),
            r is None ==> final(kernel_space).areas_view() == old(kernel_space).areas_view()
                && final(kernel_space).view_in(final(mem).phys) == old(kernel_space).view_in(old(mem).phys),
            kernel_stack_mappable(old(kernel_space), *old(mem), pid_handle.0 as int) ==> r is Some,
    {
        let pid = pid_handle.0;
        match map_kernel_stack(pid, kernel_space, mem) {
            true => Some(KernelStack { pid }),
            false => None,
        }
    }

    /// Address just above the kernel stack.
    pub fn get_top(&self) -> (r: u64)
        requires
            self.slot() < kernel_stack_slots(),
        ensures
            r == kernel_stack_spec(self.slot()).1,
    {
        let (_, top) = kernel_stack_position(self.pid);
        top
    }

    /// Unmaps the kernel stack from `kernel_space`, giving back its frames, as dropping it does.
    pub fn release(self, kernel_space: &mut MemorySet, mem: &mut Memory)
        requires
            old(kernel_space).wf(*old(mem)),
            old(mem).wf(),
            self.slot() < kernel_stack_slots(),
        ensures
            final(kernel_space).wf(*final(mem)),
            final(mem).wf(),
            forall|i: int| #[trigger] crate::memory_set::is_first_match(old(kernel_space).areas_view(), i, kernel_stack_area(self.slot()).0, None)
                ==> final(kernel_space).area_seq() == old(kernel_space).area_seq().remove(i),
    {
        let (bottom, _) = kernel_stack_position(self.pid);
        let va = VirtAddr::from_u64(bottom);
        kernel_space.remove_area_with_start_vpn(mem, va.floor());
    }
}

/// `new_view` keeps every mapping of `old_view`.
pub open spec fn view_extends_all(old_view: Map<u64, crate::page_table::PageTableEntry>, new_view: Map<u64, crate::page_table::PageTableEntry>) -> bool {
    forall|k: u64| #[trigger] old_view.contains_key(k) ==> new_view.contains_key(k) && new_view[k] == old_view[k]
}

/// The kernel stack of slot `id` can be mapped in `kernel_space` with the memory `mem`: none of
/// its pages is mapped, and three frames per page are free.
pub open spec fn kernel_stack_mappable(kernel_space: &MemorySet, mem: Memory, id: int) -> bool {
    let a = kernel_stack_area(id);
    &&& forall|v: u64| a.0 <= v < a.1 ==> !kernel_space.view_in(mem.phys).contains_key(#[trigger] vpn_key(v))
    &&& mem.allocator.free_count() >= 3 * (a.1 - a.0)
}

/// The kernel address space went from `ks0` in `m0` to `ks` in `m`: every mapping kept, memory
/// changed only in the frames of its table and in frames that were free, no frame given back, and
/// every frame that it newly owns was free.
pub open spec fn kernel_grown(ks0: &MemorySet, m0: Memory, ks: &MemorySet, m: Memory) -> bool {
    &&& view_extends_all(ks0.view_in(m0.phys), ks.view_in(m.phys))
    &&& m0.phys.same_outside(&m.phys, ks.table().frame_set() + unallocated(m0))
    &&& forall|q: int| #[trigger] m0.allocated(q) ==> m.allocated(q)
    &&& ks0.table().frame_set().subset_of(ks.table().frame_set())
    &&& forall|q: int| #[trigger] ks.table().frame_set().contains(q) && !ks0.table().frame_set().contains(q) ==> !m0.allocated(q)
    &&& forall|q: int| ks.holds_data_frame(q) ==> ks0.holds_data_frame(q) || !m0.allocated(q)
}

/// Maps the kernel stack of slot `id` in `kernel_space`; `false`, with nothing mapped, when one of
/// its pages is mapped already or a frame cannot be had.
fn map_kernel_stack(id: u64, kernel_space: &mut MemorySet, mem: &mut Memory) -> (r: bool)
    requires
        old(kernel_space).wf(*old(mem)),
        old(mem).wf(),
        id < kernel_stack_slots(),
    ensures
        final(kernel_space).wf(*final(mem)),
        final(mem).wf(),
        kernel_grown(old(kernel_space), *old(mem), final(kernel_space), *final(mem)),
        r ==> final(kernel_space).areas_view() == old(kernel_space).areas_view().push(kernel_stack_area(id as int)),
        !r ==> final(kernel_space).areas_view() == old(kernel_space).areas_view()
            && final(kernel_space).view_in(final(mem).phys) == old(kernel_space).view_in(old(mem).phys),
        kernel_stack_mappable(old(kernel_space), *old(mem), id as int) ==> r,
{
    let (bottom, top) = kernel_stack_position(id);
    let b = VirtAddr::from_u64(bottom);
    let t = VirtAddr::from_u64(top);
    proof {
        assert(b.0 == bottom as int % 0x80_0000_0000);
        assert(t.0 == top as int % 0x80_0000_0000);
        assert(t.0 == b.0 + KERNEL_STACK_SIZE);
    }
    let s = b.floor();
    let e = t.ceil();
    if !kernel_space.range_free(&mem.phys, s, e) {
        proof {
            lemma_same_outside_refl(&mem.phys, kernel_space.table().frame_set() + unallocated(*mem));
        }
        return false;
    }
    let perm = MapPermission::R().union(MapPermission::W());
    proof {
        assert(2u8 | 4u8 == 6u8) by (bit_vector);
    }
    kernel_space.insert_framed_area(mem, b, t, perm)
}

/// Takes a kernel stack slot from `allocator` and maps that stack in `kernel_space`, on fresh
/// frames. `None`, with the slot given back and nothing mapped, when the slot is beyond the stacks
/// that fit below the trampoline, one of its pages is mapped already, or a frame cannot be had.
pub fn kstack_alloc(allocator: &mut RecycleAllocator, kernel_space: &mut MemorySet, mem: &mut Memory) -> (r: Option<KernelStack>)
    requires
        old(allocator).wf(),
        old(allocator).recycled().len() > 0 || old(allocator).current() < u64::MAX,
        old(kernel_space).wf(*old(mem)),
        old(mem).wf(),
    ensures
        final(allocator).wf(),
        final(kernel_space).wf(*final(mem)),
        final(mem).wf(),
        kernel_grown(old(kernel_space), *old(mem), final(kernel_space), *final(mem)),
        r matches Some(ks) ==> !old(allocator).in_use(ks.slot()) && final(allocator).in_use(ks.slot())
            && ks.slot() < kernel_stack_slots()
            && final(kernel_space).areas_view() == old(kernel_space).areas_view().push(kernel_stack_area(ks.slot())),
        r is None ==> final(kernel_space).areas_view() == old(kernel_space).areas_view()
            && final(kernel_space).view_in(final(mem).phys) == old(kernel_space).view_in(old(mem).phys)
            && forall|id: int| #[trigger] final(allocator).in_use(id) == old(allocator).in_use(id),
        r matches Some(ks) ==> ks.slot() == old(allocator).next(),
        old(allocator).next() < kernel_stack_slots() && kernel_stack_mappable(old(kernel_space), *old(mem), old(allocator).next())
            ==> r is Some,
{
    let id = allocator.allocate();
    if id >= 0x155_5555 {
        allocator.dealloc(id);
        proof {
            lemma_same_outside_refl(&mem.phys, kernel_space.table().frame_set() + unallocated(*mem));
        }
        return None;
    }
    if !map_kernel_stack(id, kernel_space, mem) {
        allocator.dealloc(id);
        return None;
    }
    Some(KernelStack { pid: id })
}

/// A number given back with `dealloc` is the next one that `allocate` hands out, and afterwards
/// the allocator is as it was before the number was given back.
pub proof fn lemma_dealloc_then_allocate(a0: RecycleAllocator, a1: RecycleAllocator, a2: RecycleAllocator, id: u64, r: u64)
    requires
        a0.wf(),
        a0.in_use(id as int),
        a1.recycled() == a0.recycled().push(id),
        a1.current() == a0.current(),
        a1.recycled().len() > 0 ==> r == a1.recycled().last() && a2.recycled() == a1.recycled().drop_last()
            && a2.current() == a1.current(),
    ensures
        r == id,
        a2.recycled() == a0.recycled(),
        a2.current() == a0.current(),
        forall|x: int| #[trigger] a2.in_use(x) == a0.in_use(x),
{
    assert(a1.recycled().drop_last() =~= a0.recycled());
}

/// The kernel stacks of two slots never overlap: at least a guard page lies between them, and both
/// lie above address 0.
pub proof fn lemma_kernel_stacks_apart(a: int, b: int)
    requires
        0 <= a < b < kernel_stack_slots(),
    ensures
        kernel_stack_spec(b).1 + PAGE_SIZE <= kernel_stack_spec(a).0,
        0 < kernel_stack_spec(b).0 < kernel_stack_spec(b).1,
{
    let s = (KERNEL_STACK_SIZE + PAGE_SIZE) as int;
    assert(b * s >= a * s + s) by (nonlinear_arith)
        requires
            a < b,
            s > 0;
    assert(b * s <= 0x155_5555 * s) by (nonlinear_arith)
        requires
            b < 0x155_5555,
            s > 0;
}

/// The kernel stack of slot `n` spans two pages, the higher one three pages per slot below the
/// trampoline page.
pub proof fn lemma_kernel_stack_pages(n: int)
    requires
        0 <= n < kernel_stack_slots(),
    ensures
        kernel_stack_area(n).0 == 0x800_0000 - 3 - 3 * n,
        kernel_stack_area(n).1 == 0x800_0000 - 1 - 3 * n,
{
    let d = 0x80_0000_0000int;
    let x = n * 12288;
    assert(0 <= x <= 0x155_5555 * 12288) by (nonlinear_arith)
        requires
            0 <= n < 0x155_5555,
            x == n * 12288;
    let b = kernel_stack_spec(n).0;
    let t = kernel_stack_spec(n).1;
    assert(b == 0x1ff_ffff * d + (d - 12288 - x));
    assert(t == 0x1ff_ffff * d + (d - 4096 - x));
    vstd::arithmetic::div_mod::lemma_fundamental_div_mod_converse(b, d, 0x1ff_ffff, d - 12288 - x);
    vstd::arithmetic::div_mod::lemma_fundamental_div_mod_converse(t, d, 0x1ff_ffff, d - 4096 - x);
    assert(d - 12288 - x == (0x800_0000 - 3 - 3 * n) * 4096) by (nonlinear_arith)
        requires
            x == n * 12288,
            d == 0x80_0000_0000int;
    assert(d - 4096 - x == (0x800_0000 - 1 - 3 * n) * 4096) by (nonlinear_arith)
        requires
            x == n * 12288,
            d == 0x80_0000_0000int;
    vstd::arithmetic::div_mod::lemma_fundamental_div_mod_converse(d - 12288 - x, 4096, 0x800_0000 - 3 - 3 * n, 0);
    assert(d - 4096 - x - 1 + 4096 == (0x800_0000 - 1 - 3 * n) * 4096 + 4095) by (nonlinear_arith)
        requires
            x == n * 12288,
            d == 0x80_0000_0000int;
    vstd::arithmetic::div_mod::lemma_fundamental_div_mod_converse(d - 4096 - x - 1 + 4096, 4096, 0x800_0000 - 1 - 3 * n, 4095);
}

} // verus!
