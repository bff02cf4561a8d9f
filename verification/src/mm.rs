//! Access to user memory through the page table that a `satp` token selects, and the start of
//! memory management.
use vstd::prelude::*;
use crate::address::{PhysAddr, PhysPageNum, VirtAddr, VirtPageNum};
use crate::config::PAGE_SIZE;
use crate::frame_allocator::{init_frame_allocator, Memory};
use crate::memory_set::{KernelLayout, MemorySet, trampoline_vpn, trampoline_entry, key_in};
use crate::page_table::{PageTable, PageTableEntry, translate_spec, vpn_key};
use crate::phys_mem::PhysMem;

verus! {

/// Root frame of the table that the `satp` value `token` selects.
pub open spec fn token_root(token: u64) -> int {
    token as int % 0x1000_0000_0000
}

/// The token of a table whose root lies below 2^44 selects that root.
pub proof fn lemma_token_root(root: u64)
    requires
        root < 0x1000_0000_0000,
    ensures
        token_root(0x8000_0000_0000_0000u64 | root) == root,
{
    assert((0x8000_0000_0000_0000u64 | root) % 0x1000_0000_0000 == root) by (bit_vector)
        requires
            root < 0x1000_0000_0000u64,
    ;
}

/// The last-level entry for the page of the virtual address `va`, taken to 39 bits, in the table
/// with root `root`, when the walk reaches one.
pub open spec fn entry_of(phys: PhysMem, root: int, va: int) -> Option<PageTableEntry> {
    translate_spec(phys, root, ((va % 0x80_0000_0000) / PAGE_SIZE as int) as u64)
}

/// The frame and offset that the virtual address `va` reaches in the table with root `root`
/// (through the entry's page, valid or not), when the walk reaches an entry and the frame is in
/// memory.
pub open spec fn user_place(phys: PhysMem, root: int, va: int) -> Option<(int, int)> {
    match entry_of(phys, root, va) {
        Some(e) => if phys.has_frame(e.ppn_spec() as int) {
            Some((e.ppn_spec() as int, va % PAGE_SIZE as int))
        } else {
            None
        },
        None => None,
    }
}

/// The byte at virtual address `va` through the table with root `root`, when it can be reached.
pub open spec fn user_byte(phys: PhysMem, root: int, va: int) -> Option<u8> {
    match user_place(phys, root, va) {
        Some((p, off)) => Some(phys.byte(p, off)),
        None => None,
    }
}

/// The bytes of `phys` after writing the first `n` bytes of `data`, one after the other, at the
/// places that the virtual addresses from `ptr` on reach through the table with root `root`.
pub open spec fn user_written(phys: PhysMem, root: int, ptr: int, data: Seq<u8>, n: nat) -> Seq<u8>
    decreases n,
{
    if n == 0 {
        phys.bytes()
    } else {
        let (p, off) = user_place(phys, root, ptr + n - 1)->0;
        user_written(phys, root, ptr, data, (n - 1) as nat).update(phys.pos(p, off), data[n - 1])
    }
}

/// Every byte of `[ptr, ptr + len)` can be reached through the table with root `root`, and the
/// range, when not empty, lies below 2^39.
pub open spec fn user_range_ok(phys: PhysMem, root: int, ptr: int, len: int) -> bool {
    &&& len > 0 ==> ptr + len <= 0x80_0000_0000
    &&& forall|i: int| 0 <= i < len ==> #[trigger] user_place(phys, root, ptr + i) is Some
}

/// The place that `va` reaches through `pt`, when its walk reaches an entry whose frame is in
/// `phys`.
fn place_of(pt: &PageTable, phys: &PhysMem, va: u64) -> (r: Option<(PhysPageNum, u64)>)
    requires
        phys.wf(),
    ensures
        match user_place(*phys, pt.root(), va as int) {
            Some((p, off)) => r matches Some((q, o)) && q.0 == p && o == off,
            None => r is None,
        },
{
    let v = VirtAddr::from_u64(va);
    match pt.translate(phys, v.floor()) {
        None => None,
        Some(pte) => {
            let ppn = pte.ppn();
            if phys.contains_frame(ppn) {
                Some((ppn, v.page_offset()))
            } else {
                None
            }
        },
    }
}

/// What reading the user address `va` through the table with root `root` gives: the byte, as a
/// number, when the walk reaches a valid readable entry whose frame is in memory and `va` is not the
/// last address; an error otherwise.
pub open spec fn read_result(phys: PhysMem, root: int, va: u64) -> Result<i64, ()> {
    match entry_of(phys, root, va as int) {
        Some(e) => if e.valid_spec() && e.readable_spec() && phys.has_frame(e.ppn_spec() as int) && va < u64::MAX {
            Ok(phys.byte(e.ppn_spec() as int, va as int % PAGE_SIZE as int) as i64)
        } else {
            Err(())
        },
        None => Err(()),
    }
}

/// The byte at the user address `virtaddr` of the address space with token `token`, as a number:
/// `Err` when the walk reaches no entry, the entry is not valid or not readable, the frame is not
/// in memory, or `virtaddr` is the last address.
pub fn read_virtaddr(phys: &PhysMem, token: u64, virtaddr: u64) -> (r: Result<i64, ()>)
    requires
        phys.wf(),
    ensures
        r == read_result(*phys, token_root(token), virtaddr),
{
    let pgtb = PageTable::from_token(token);
    let vpn = VirtAddr::from_u64(virtaddr).floor();
    match pgtb.translate(phys, vpn) {
        None => Err(()),
        Some(pte) => {
            if !pte.is_valid() || !pte.readable() || virtaddr == u64::MAX {
                Err(())
            } else {
                match place_of(&pgtb, phys, virtaddr) {
                    None => Err(()),
                    Some((p, off)) => Ok(phys.read_byte(p, off) as i64),
                }
            }
        },
    }
}

/// Writes `data` at the user address `virtaddr` of the address space with token `token`: `Err`,
/// with nothing written, when the walk reaches no entry, the entry is not valid or not writable,
/// the frame is not in memory, or `virtaddr` is the last address.
pub fn write_virtaddr(phys: &mut PhysMem, token: u64, virtaddr: u64, data: u8) -> (r: Result<(), ()>)
    requires
        old(phys).wf(),
    ensures
        final(phys).wf(),
        r is Ok <==> match entry_of(*old(phys), token_root(token), virtaddr as int) {
            Some(e) => e.valid_spec() && e.writable_spec() && old(phys).has_frame(e.ppn_spec() as int) && virtaddr < u64::MAX,
            None => false,
        },
        r is Ok ==> final(phys).first() == old(phys).first() && final(phys).bytes() == user_written(*old(phys), token_root(token), virtaddr as int, seq![data], 1),
        r is Err ==> *final(phys) == *old(phys),
{
    let pgtb = PageTable::from_token(token);
    let vpn = VirtAddr::from_u64(virtaddr).floor();
    match pgtb.translate(phys, vpn) {
        None => Err(()),
        Some(pte) => {
            if !pte.is_valid() || !pte.writable() || virtaddr == u64::MAX {
                Err(())
            } else {
                match place_of(&pgtb, phys, virtaddr) {
                    None => Err(()),
                    Some((p, off)) => {
                        phys.write_byte(p, off, data);
                        proof {
                            assert(user_written(*old(phys), token_root(token), virtaddr as int, seq![data], 0) == old(phys).bytes());
                        }
                        Ok(())
                    },
                }
            }
        },
    }
}

/// Copies `src` to the user addresses from `user_ptr` on of the address space with token
/// `user_token`, byte after byte: `Err`, with nothing written, when the range reaches 2^39 or one
/// of its bytes cannot be reached (no entry, or a frame not in memory). Copying nothing always
/// succeeds, wherever `user_ptr` points.
pub fn copy_to_user(phys: &mut PhysMem, user_token: u64, user_ptr: u64, src: &[u8]) -> (r: Result<(), ()>)
    requires
        old(phys).wf(),
    ensures
        final(phys).wf(),
        r is Ok <==> user_range_ok(*old(phys), token_root(user_token), user_ptr as int, src@.len() as int),
        r is Ok ==> final(phys).first() == old(phys).first() && final(phys).bytes() == user_written(*old(phys), token_root(user_token), user_ptr as int, src@, src@.len()),
        r is Err ==> *final(phys) == *old(phys),
{
    let pt = PageTable::from_token(user_token);
    let ghost root = pt.root();
    let ghost p0 = *phys;
    let len = src.len();
    if len == 0 {
        return Ok(());
    }
    if user_ptr > 0x80_0000_0000 || len as u64 > 0x80_0000_0000 - user_ptr {
        return Err(());
    }
    let mut places: Vec<(PhysPageNum, u64)> = Vec::new();
    let mut i: usize = 0;
    while i < len
        invariant
            p0 == *phys,
            root == pt.root(),
            root == token_root(user_token),
            phys.wf(),
            len == src@.len(),
            user_ptr + len <= 0x80_0000_0000,
            0 <= i <= len,
            places@.len() == i,
            forall|j: int| 0 <= j < i ==> #[trigger] user_place(p0, root, user_ptr + j) == Some((places@[j].0.0 as int, places@[j].1 as int)),
        decreases len - i,
    {
        match place_of(&pt, phys, user_ptr + i as u64) {
            None => {
                proof {
                    assert(user_place(p0, root, user_ptr as int + i as int) is None);
                }
                return Err(());
            },
            Some(pl) => places.push(pl),
        }
        i = i + 1;
    }
    let mut i: usize = 0;
    while i < len
        invariant
            p0 == *old(phys),
            root == pt.root(),
            root == token_root(user_token),
            phys.wf(),
            phys.first() == p0.first(),
            phys.bytes().len() == p0.bytes().len(),
            len == src@.len(),
            user_ptr + len <= 0x80_0000_0000,
            0 <= i <= len,
            places@.len() == len,
            forall|j: int| 0 <= j < len ==> #[trigger] user_place(p0, root, user_ptr + j) == Some((places@[j].0.0 as int, places@[j].1 as int)),
            phys.bytes() == user_written(p0, root, user_ptr as int, src@, i as nat),
        decreases len - i,
    {
        let (p, off) = places[i];
        proof {
            assert(user_place(p0, root, user_ptr + i) == Some((p.0 as int, off as int)));
        }
        phys.write_byte(p, off, src[i]);
        i = i + 1;
    }
    proof {
        assert forall|j: int| 0 <= j < len implies #[trigger] user_place(p0, root, user_ptr + j) is Some by {}
    }
    Ok(())
}

/// The bytes at `ptr` up to `ptr + j` can be reached and are not zero, and the byte at `ptr + j`
/// cannot be reached or lies past the last address.
pub open spec fn str_breaks_at(phys: PhysMem, root: int, ptr: int, j: int) -> bool {
    &&& j >= 0
    &&& forall|i: int| 0 <= i < j ==> #[trigger] user_byte(phys, root, ptr + i) is Some && user_byte(phys, root, ptr + i)->0 != 0
    &&& (ptr + j > u64::MAX || user_byte(phys, root, ptr + j) is None)
}

/// Start of the `k`-th piece of the user range `[ptr, end)` cut at page boundaries: `ptr` for the
/// first, the start of the `k`-th page after the page of `ptr` for the others, but no further than
/// `end`.
pub open spec fn piece_start(ptr: int, end: int, k: int) -> int {
    if k == 0 {
        ptr
    } else if end < (ptr / 4096 + k) * 4096 {
        end
    } else {
        (ptr / 4096 + k) * 4096
    }
}

/// Number of pages that the user range `[ptr, ptr + len)` touches.
pub open spec fn piece_count(ptr: int, len: int) -> int {
    if len == 0 {
        0
    } else {
        (ptr + len - 1) / 4096 - ptr / 4096 + 1
    }
}

/// The user range `[ptr, ptr + len)` of the address space with token `token`, cut at page
/// boundaries, as pieces of frames: for each page that it touches, the frame that the page's entry
/// names and the offsets, in that frame, where the piece starts and ends. `None` when the walk for
/// one of those pages reaches no entry or names a frame that is not in memory.
pub fn translated_byte_buffer(phys: &PhysMem, token: u64, ptr: u64, len: u64) -> (r: Option<Vec<(PhysPageNum, u64, u64)>>)
    requires
        phys.wf(),
        ptr + len <= 0x80_0000_0000,
    ensures
        r is Some <==> forall|k: int| 0 <= k < piece_count(ptr as int, len as int)
            ==> #[trigger] user_place(*phys, token_root(token), piece_start(ptr as int, ptr + len, k)) is Some,
        r matches Some(v) ==> {
            &&& v@.len() == piece_count(ptr as int, len as int)
            &&& forall|k: int| 0 <= k < v@.len() ==> user_place(*phys, token_root(token), piece_start(ptr as int, ptr + len, k))
                == Some(((#[trigger] v@[k]).0.0 as int, v@[k].1 as int))
            &&& forall|k: int| 0 <= k < v@.len() ==> (#[trigger] v@[k]).2 == piece_start(ptr as int, ptr + len, k + 1)
                - (ptr / 4096 + k) * 4096
        },
{
    let pt = PageTable::from_token(token);
    let end = ptr + len;
    let mut start = ptr;
    let mut v: Vec<(PhysPageNum, u64, u64)> = Vec::new();
    let ghost n = piece_count(ptr as int, len as int);
    proof {
        if len > 0 {
            assert((ptr + len - 1) / 4096 >= ptr / 4096) by (nonlinear_arith)
                requires
                    len > 0;
        }
    }
    while start < end
        invariant
            phys.wf(),
            pt.root() == token_root(token),
            end == ptr + len,
            end <= 0x80_0000_0000,
            n == piece_count(ptr as int, len as int),
            len > 0 ==> n >= 1,
            ptr <= start <= end,
            start == piece_start(ptr as int, end as int, v@.len() as int),
            v@.len() <= n,
            start < end <==> v@.len() < n,
            forall|k: int| 0 <= k < v@.len() ==> user_place(*phys, token_root(token), piece_start(ptr as int, end as int, k))
                == Some(((#[trigger] v@[k]).0.0 as int, v@[k].1 as int)),
            forall|k: int| 0 <= k < v@.len() ==> (#[trigger] v@[k]).2 == piece_start(ptr as int, end as int, k + 1)
                - (ptr / 4096 + k) * 4096,
        decreases end - start,
    {
        let ghost k = v@.len() as int;
        let page = start / 4096;
        proof {
            let p0 = ptr / 4096;
            if k == 0 {
                assert(page == p0);
            } else {
                assert(start == (p0 + k) * 4096);
                assert(page == p0 + k) by (nonlinear_arith)
                    requires
                        start == (p0 + k) * 4096,
                        page == start / 4096;
            }
        }
        let (ppn, off) = match place_of(&pt, phys, start) {
            None => {
                proof {
                    assert(!(user_place(*phys, token_root(token), piece_start(ptr as int, end as int, k)) is Some));
                }
                return None;
            },
            Some(place) => place,
        };
        let next = (page + 1) * 4096;
        let e = if next < end { next } else { end };
        let to = e - page * 4096;
        let ghost v0 = v@;
        v.push((ppn, off, to));
        proof {
            let p0 = ptr / 4096;
            assert(page == p0 + k);
            assert(e == piece_start(ptr as int, end as int, k + 1));
            if e < end {
                assert(e == (p0 + k + 1) * 4096);
                assert(k + 1 < n) by (nonlinear_arith)
                    requires
                        e == (p0 + k + 1) * 4096,
                        e < end,
                        end == ptr + len,
                        len > 0,
                        p0 == ptr / 4096,
                        n == (ptr + len - 1) / 4096 - ptr / 4096 + 1;
            } else {
                assert(k + 1 >= n) by (nonlinear_arith)
                    requires
                        (p0 + k + 1) * 4096 >= end,
                        end == ptr + len,
                        len > 0,
                        p0 == ptr / 4096,
                        n == (ptr + len - 1) / 4096 - ptr / 4096 + 1;
            }
            assert forall|j: int| 0 <= j < v@.len() implies user_place(*phys, token_root(token), piece_start(ptr as int, end as int, j))
                == Some(((#[trigger] v@[j]).0.0 as int, v@[j].1 as int)) by {
                if j < k {
                    assert(v@[j] == v0[j]);
                }
            }
            assert forall|j: int| 0 <= j < v@.len() implies (#[trigger] v@[j]).2 == piece_start(ptr as int, end as int, j + 1)
                - (ptr / 4096 + j) * 4096 by {
                if j < k {
                    assert(v@[j] == v0[j]);
                }
            }
        }
        start = e;
    }
    proof {
        assert forall|k: int| 0 <= k < piece_count(ptr as int, len as int)
            implies #[trigger] user_place(*phys, token_root(token), piece_start(ptr as int, ptr + len, k)) is Some by {
            assert(user_place(*phys, token_root(token), piece_start(ptr as int, end as int, k)) == Some((v@[k].0.0 as int, v@[k].1 as int)));
        }
    }
    Some(v)
}

/// `s` is the string at the user address `ptr` through the table with root `root`: its bytes can
/// be reached one after the other and are not zero, and the byte after them is a reachable zero
/// at an address that fits in 64 bits.
pub open spec fn user_str(phys: PhysMem, root: int, ptr: int, s: Seq<u8>) -> bool {
    &&& forall|i: int| 0 <= i < s.len() ==> #[trigger] user_byte(phys, root, ptr + i) == Some(s[i]) && s[i] != 0
    &&& ptr + s.len() <= u64::MAX
    &&& user_byte(phys, root, ptr + s.len()) == Some(0u8)
}

/// No string lies at `ptr` when the bytes from it break off, before any zero, at `ptr + j`.
proof fn lemma_no_str(phys: PhysMem, root: int, ptr: int, j: int, s: Seq<u8>)
    requires
        str_breaks_at(phys, root, ptr, j),
    ensures
        !user_str(phys, root, ptr, s),
{
    if user_str(phys, root, ptr, s) {
        if s.len() < j {
            assert(user_byte(phys, root, ptr + s.len()) is Some);
        } else if s.len() > j {
            assert(user_byte(phys, root, ptr + j) == Some(s[j]));
        }
    }
}

/// Two strings at one address are the same string.
pub proof fn lemma_user_str_unique(phys: PhysMem, root: int, ptr: int, s: Seq<u8>, t: Seq<u8>)
    requires
        user_str(phys, root, ptr, s),
        user_str(phys, root, ptr, t),
    ensures
        s == t,
{
    if s.len() < t.len() {
        assert(user_byte(phys, root, ptr + s.len()) == Some(t[s.len() as int]));
    } else if t.len() < s.len() {
        assert(user_byte(phys, root, ptr + t.len()) == Some(s[t.len() as int]));
    } else {
        assert forall|i: int| 0 <= i < s.len() implies s[i] == t[i] by {
            assert(user_byte(phys, root, ptr + i) == Some(s[i]));
            assert(user_byte(phys, root, ptr + i) == Some(t[i]));
        }
        assert(s =~= t);
    }
}

/// Reads the string that ends with a zero byte at the user address `ptr` of the address space
/// with token `token`, byte after byte, without the zero: `None` when a byte before the zero
/// cannot be reached or the string runs past the last address.
pub fn translated_str(phys: &PhysMem, token: u64, ptr: u64) -> (r: Option<Vec<u8>>)
    requires
        phys.wf(),
    ensures
        r matches Some(s) ==> user_str(*phys, token_root(token), ptr as int, s@),
        r is None ==> forall|s: Seq<u8>| !#[trigger] user_str(*phys, token_root(token), ptr as int, s),
{
    let pt = PageTable::from_token(token);
    let ghost root = pt.root();
    let mut s: Vec<u8> = Vec::new();
    let mut va = ptr;
    loop
        invariant
            phys.wf(),
            root == pt.root(),
            root == token_root(token),
            ptr <= va,
            va == ptr + s@.len(),
            forall|i: int| 0 <= i < s@.len() ==> #[trigger] user_byte(*phys, root, ptr + i) == Some(s@[i]) && s@[i] != 0,
        decreases u64::MAX - va,
    {
        let ch = match place_of(&pt, phys, va) {
            None => {
                proof {
                    assert(user_byte(*phys, root, ptr + s@.len()) is None);
                    assert(str_breaks_at(*phys, root, ptr as int, s@.len() as int));
                    assert forall|t: Seq<u8>| !#[trigger] user_str(*phys, root, ptr as int, t) by {
                        lemma_no_str(*phys, root, ptr as int, s@.len() as int, t);
                    }
                }
                return None;
            },
            Some((p, off)) => phys.read_byte(p, off),
        };
        if ch == 0 {
            return Some(s);
        }
        if va == u64::MAX {
            proof {
                assert(ptr + (s@.len() + 1) > u64::MAX);
                assert forall|i: int| 0 <= i < s@.len() + 1 implies #[trigger] user_byte(*phys, root, ptr + i) is Some
                    && user_byte(*phys, root, ptr + i)->0 != 0 by {
                    if i < s@.len() {
                        assert(user_byte(*phys, root, ptr + i) == Some(s@[i]));
                    }
                }
                assert(str_breaks_at(*phys, root, ptr as int, s@.len() + 1int));
                assert forall|t: Seq<u8>| !#[trigger] user_str(*phys, root, ptr as int, t) by {
                    lemma_no_str(*phys, root, ptr as int, s@.len() + 1int, t);
                }
            }
            return None;
        }
        s.push(ch);
        va = va + 1;
    }
}

/// The physical address that the user address `ptr` of the address space with token `token`
/// reaches, when its walk reaches an entry.
pub fn translated_refmut(phys: &PhysMem, token: u64, ptr: u64) -> (r: Option<PhysAddr>)
    requires
        phys.wf(),
    ensures
        match entry_of(*phys, token_root(token), ptr as int) {
            Some(e) => r == Some(PhysAddr((e.ppn_spec() * PAGE_SIZE + ptr as int % PAGE_SIZE as int) as u64)),
            None => r is None,
        },
{
    let page_table = PageTable::from_token(token);
    page_table.translate_va(phys, VirtAddr::from_u64(ptr))
}

/// Starts memory management: the frame allocator hands out the frames from the end of the kernel
/// image to `MEMORY_END`, and the kernel address space is built; `None` when frames run out,
/// which happens only when those frames are fewer than the kernel's page tables can need, and
/// then every frame is taken.
pub fn init(mem: &mut Memory, layout: KernelLayout) -> (r: Option<MemorySet>)
    requires
        old(mem).wf(),
        old(mem).allocator.recycled().len() == 0,
        layout.wf(),
        old(mem).phys.has_frame(crate::address::ceil_page(layout.ekernel as int)),
        old(mem).phys.has_frame(crate::config::MEMORY_END / PAGE_SIZE - 1),
        crate::address::ceil_page(layout.ekernel as int) < crate::config::MEMORY_END / PAGE_SIZE,
    ensures
        final(mem).wf(),
        crate::config::MEMORY_END / PAGE_SIZE - crate::address::ceil_page(layout.ekernel as int) >= layout.kernel_table_frames() ==> r is Some,
        r is None ==> final(mem).allocator.free_count() == 0,
        final(mem).allocator.end() == crate::config::MEMORY_END / PAGE_SIZE,
        r matches Some(ks) ==> {
            &&& ks.wf(*final(mem))
            &&& ks.areas_view() == layout.kernel_areas()
            &&& ks.view_in(final(mem).phys)[vpn_key(trampoline_vpn())] == trampoline_entry(layout.strampoline)
        },
{
    init_frame_allocator(&mut mem.allocator, PhysAddr(layout.ekernel));
    MemorySet::new_kernel(mem, layout)
}

/// Reading a user address of the user address space `ms` just written with `write_virtaddr`
/// gives the byte written, when the entry of its page lets the process read; the entry stays as
/// it was. The address lies below the trampoline page, and its entry is valid, as it is when the
/// write succeeds.
pub proof fn lemma_write_then_read(ms: &MemorySet, mem: Memory, va: u64, b: u8, phys1: PhysMem)
    requires
        mem.wf(),
        ms.user_space_ok(mem),
        (va as int % 0x80_0000_0000) / PAGE_SIZE as int <= trampoline_vpn() - 1,
        entry_of(mem.phys, ms.table().root(), va as int) matches Some(e) && e.valid_spec(),
        phys1.first() == mem.phys.first(),
        phys1.bytes() == user_written(mem.phys, ms.table().root(), va as int, seq![b], 1),
    ensures
        entry_of(phys1, ms.table().root(), va as int) == entry_of(mem.phys, ms.table().root(), va as int),
        user_byte(phys1, ms.table().root(), va as int) == Some(b),
        read_result(phys1, ms.table().root(), va) == (match entry_of(mem.phys, ms.table().root(), va as int) {
            Some(e) => if e.readable_spec() && va < u64::MAX {
                Ok(b as i64)
            } else {
                Err(())
            },
            None => Err(()),
        }),
{
    let v = ((va as int % 0x80_0000_0000) / PAGE_SIZE as int) as u64;
    crate::memory_set::lemma_user_page_frame(ms, mem, v);
    lemma_write_then_read_at(&ms.table(), mem, va, b, phys1);
}

/// Reading a user address just written with `write_virtaddr` gives the byte written, when the
/// entry of its page lets the process read and the frame written is not a frame of the table
/// itself; the entry stays as it was.
proof fn lemma_write_then_read_at(pt: &PageTable, mem: Memory, va: u64, b: u8, phys1: PhysMem)
    requires
        mem.wf(),
        pt.wf(mem),
        user_place(mem.phys, pt.root(), va as int) matches Some((p, off)) && !pt.frame_set().contains(p),
        phys1.first() == mem.phys.first(),
        phys1.bytes() == user_written(mem.phys, pt.root(), va as int, seq![b], 1),
    ensures
        entry_of(phys1, pt.root(), va as int) == entry_of(mem.phys, pt.root(), va as int),
        user_byte(phys1, pt.root(), va as int) == Some(b),
        read_result(phys1, pt.root(), va) == (match entry_of(mem.phys, pt.root(), va as int) {
            Some(e) => if e.valid_spec() && e.readable_spec() && va < u64::MAX {
                Ok(b as i64)
            } else {
                Err(())
            },
            None => Err(()),
        }),
{
    let root = pt.root();
    let (p, off) = user_place(mem.phys, root, va as int).unwrap();
    let phys0 = mem.phys;
    assert(user_written(phys0, root, va as int, seq![b], 0) == phys0.bytes());
    assert(phys1.bytes() == phys0.bytes().update(phys0.pos(p, off), b));
    assert(0 <= off < PAGE_SIZE);
    assert(phys0.has_frame(p));
    assert forall|q: int, o: int|
        #![trigger phys1.byte(q, o)]
        phys0.has_frame(q) && 0 <= o < PAGE_SIZE && !set![p].contains(q) implies phys1.byte(q, o) == phys0.byte(q, o) by {
        assert(phys0.pos(q, o) != phys0.pos(p, off)) by (nonlinear_arith)
            requires
                q != p,
                0 <= o < 4096,
                0 <= off < 4096,
                phys0.pos(q, o) == (q - phys0.first()) * 4096 + o,
                phys0.pos(p, off) == (p - phys0.first()) * 4096 + off;
        assert(0 <= phys0.pos(q, o) < phys0.bytes().len()) by (nonlinear_arith)
            requires
                phys0.first() <= q < phys0.first() + phys0.page_count(),
                0 <= o < 4096,
                phys0.pos(q, o) == (q - phys0.first()) * 4096 + o,
                phys0.page_count() == phys0.bytes().len() as int / 4096,
                phys0.bytes().len() as int % 4096 == 0;
    }
    assert(phys0.same_outside(&phys1, set![p]));
    let mem1 = Memory { allocator: mem.allocator, phys: phys1 };
    pt.lemma_frames_allocated(mem);
    assert(set![p].disjoint(pt.frame_set()));
    pt.lemma_frame_local(mem, mem1, set![p]);
    let v = ((va as int % 0x80_0000_0000) / PAGE_SIZE as int) as u64;
    assert(translate_spec(phys1, root, v) == translate_spec(phys0, root, v));
    assert(phys1.has_frame(p) == phys0.has_frame(p));
    assert(0 <= phys0.pos(p, off) < phys0.bytes().len()) by (nonlinear_arith)
        requires
            phys0.first() <= p < phys0.first() + phys0.page_count(),
            0 <= off < 4096,
            phys0.pos(p, off) == (p - phys0.first()) * 4096 + off,
            phys0.page_count() == phys0.bytes().len() as int / 4096,
            phys0.bytes().len() as int % 4096 == 0;
    assert(phys1.byte(p, off) == b);
}

/// Position, in the bytes of memory, of the place that the user address `ptr + i` reaches.
pub open spec fn place_pos(phys: PhysMem, root: int, ptr: int, i: int) -> int {
    let (p, off) = user_place(phys, root, ptr + i)->0;
    phys.pos(p, off)
}

/// Where the places of the first `n` bytes from `ptr` are distinct, writing them puts byte `i` of
/// `data` at the place of `ptr + i`, and leaves every other byte as it was.
proof fn lemma_user_written_at(phys: PhysMem, root: int, ptr: int, data: Seq<u8>, n: nat)
    requires
        phys.wf(),
        n <= data.len(),
        forall|i: int| 0 <= i < n ==> #[trigger] user_place(phys, root, ptr + i) is Some,
        forall|i: int, j: int| 0 <= i < j < n ==> #[trigger] place_pos(phys, root, ptr, i) != #[trigger] place_pos(phys, root, ptr, j),
    ensures
        user_written(phys, root, ptr, data, n).len() == phys.bytes().len(),
        forall|i: int| 0 <= i < n ==> user_written(phys, root, ptr, data, n)[#[trigger] place_pos(phys, root, ptr, i)] == data[i],
        forall|x: int| 0 <= x < phys.bytes().len() && (forall|i: int| 0 <= i < n ==> x != #[trigger] place_pos(phys, root, ptr, i))
            ==> #[trigger] user_written(phys, root, ptr, data, n)[x] == phys.bytes()[x],
    decreases n,
{
    if n > 0 {
        let m = (n - 1) as nat;
        lemma_user_written_at(phys, root, ptr, data, m);
        assert(user_place(phys, root, ptr + m) is Some);
        let (p, off) = user_place(phys, root, ptr + m)->0;
        lemma_place_in_memory(phys, p, off);
        assert(ptr + n - 1 == ptr + m);
        assert(place_pos(phys, root, ptr, m as int) == phys.pos(p, off));
        let w0 = user_written(phys, root, ptr, data, m);
        assert(user_written(phys, root, ptr, data, n) == w0.update(place_pos(phys, root, ptr, m as int), data[m as int]));
        assert forall|i: int| 0 <= i < n implies user_written(phys, root, ptr, data, n)[#[trigger] place_pos(phys, root, ptr, i)] == data[i] by {
            if i < m {
                assert(place_pos(phys, root, ptr, i) != place_pos(phys, root, ptr, m as int));
                assert(user_place(phys, root, ptr + i) is Some);
                let (pi, oi) = user_place(phys, root, ptr + i)->0;
                lemma_place_in_memory(phys, pi, oi);
            }
        }
        assert forall|x: int| 0 <= x < phys.bytes().len() && (forall|i: int| 0 <= i < n ==> x != #[trigger] place_pos(phys, root, ptr, i))
            implies #[trigger] user_written(phys, root, ptr, data, n)[x] == phys.bytes()[x] by {
            assert(x != place_pos(phys, root, ptr, m as int));
            assert forall|i: int| 0 <= i < m implies x != #[trigger] place_pos(phys, root, ptr, i) by {
                assert(x != place_pos(phys, root, ptr, i));
            }
        }
    }
}

/// A place that a user address reaches lies in memory, its byte inside the bytes of memory.
proof fn lemma_place_in_memory(phys: PhysMem, p: int, off: int)
    requires
        phys.wf(),
        phys.has_frame(p),
        0 <= off < PAGE_SIZE,
    ensures
        0 <= phys.pos(p, off) < phys.bytes().len(),
{
    assert(0 <= phys.pos(p, off) < phys.bytes().len()) by (nonlinear_arith)
        requires
            phys.first() <= p < phys.first() + phys.page_count(),
            0 <= off < 4096,
            phys.pos(p, off) == (p - phys.first()) * 4096 + off,
            phys.page_count() == phys.bytes().len() as int / 4096,
            phys.bytes().len() as int % 4096 == 0;
}

/// Two distinct places have distinct positions in memory.
proof fn lemma_pos_distinct(phys: PhysMem, p: int, off: int, q: int, o: int)
    requires
        0 <= off < PAGE_SIZE,
        0 <= o < PAGE_SIZE,
        (p, off) != (q, o),
    ensures
        phys.pos(p, off) != phys.pos(q, o),
{
    assert(phys.pos(p, off) != phys.pos(q, o)) by (nonlinear_arith)
        requires
            p != q || off != o,
            0 <= o < 4096,
            0 <= off < 4096,
            phys.pos(q, o) == (q - phys.first()) * 4096 + o,
            phys.pos(p, off) == (p - phys.first()) * 4096 + off;
}

/// Every byte that `copy_to_user` copied into the user address space `ms` reads back at its user
/// address, when the range lies below the trampoline page and the entry of each of its pages is
/// valid.
pub proof fn lemma_copy_then_read(ms: &MemorySet, mem: Memory, ptr: u64, data: Seq<u8>, phys1: PhysMem)
    requires
        mem.wf(),
        ms.user_space_ok(mem),
        ptr + data.len() <= trampoline_vpn() * PAGE_SIZE,
        forall|i: int| 0 <= i < data.len() ==> ((#[trigger] entry_of(mem.phys, ms.table().root(), ptr + i)) matches Some(e) && e.valid_spec()),
        phys1.first() == mem.phys.first(),
        phys1.bytes() == user_written(mem.phys, ms.table().root(), ptr as int, data, data.len()),
    ensures
        forall|i: int| 0 <= i < data.len() ==> #[trigger] user_byte(phys1, ms.table().root(), ptr + i) == Some(data[i]),
{
    let root = ms.table().root();
    let n = data.len();
    assert forall|i: int| 0 <= i < n implies (#[trigger] user_place(mem.phys, root, ptr + i)) is Some
        && !ms.table().frame_set().contains(user_place(mem.phys, root, ptr + i).unwrap().0) by {
        let v = (((ptr + i) % 0x80_0000_0000) / PAGE_SIZE as int) as u64;
        assert((ptr + i) % 0x80_0000_0000 == ptr + i);
        assert(entry_of(mem.phys, root, ptr + i) matches Some(e) && e.valid_spec());
        crate::memory_set::lemma_user_page_frame(ms, mem, v);
    }
    assert forall|i: int, j: int| 0 <= i < j < n implies #[trigger] place_pos(mem.phys, root, ptr as int, i)
        != #[trigger] place_pos(mem.phys, root, ptr as int, j) by {
        let a = ptr + i;
        let b = ptr + j;
        assert(a % 0x80_0000_0000 == a && b % 0x80_0000_0000 == b);
        let v = (a / PAGE_SIZE as int) as u64;
        let w = (b / PAGE_SIZE as int) as u64;
        assert(entry_of(mem.phys, root, a) matches Some(e) && e.valid_spec());
        assert(entry_of(mem.phys, root, b) matches Some(e) && e.valid_spec());
        assert(user_place(mem.phys, root, a) is Some);
        assert(user_place(mem.phys, root, b) is Some);
        let (p, off) = user_place(mem.phys, root, a).unwrap();
        let (q, o) = user_place(mem.phys, root, b).unwrap();
        if v == w {
            assert(off != o);
        } else {
            crate::memory_set::lemma_user_pages_apart(ms, mem, v, w);
            assert(p != q);
        }
        lemma_pos_distinct(mem.phys, p, off, q, o);
    }
    lemma_copy_then_read_at(&ms.table(), mem, ptr, data, phys1);
}

/// Every byte that `copy_to_user` copied reads back at its user address, when the bytes of the
/// range reach distinct places, none of them in a frame of the table itself.
proof fn lemma_copy_then_read_at(pt: &PageTable, mem: Memory, ptr: u64, data: Seq<u8>, phys1: PhysMem)
    requires
        mem.wf(),
        pt.wf(mem),
        user_range_ok(mem.phys, pt.root(), ptr as int, data.len() as int),
        forall|i: int| 0 <= i < data.len() ==> !pt.frame_set().contains((#[trigger] user_place(mem.phys, pt.root(), ptr + i)).unwrap().0),
        forall|i: int, j: int| 0 <= i < j < data.len() ==> #[trigger] place_pos(mem.phys, pt.root(), ptr as int, i)
            != #[trigger] place_pos(mem.phys, pt.root(), ptr as int, j),
        phys1.first() == mem.phys.first(),
        phys1.bytes() == user_written(mem.phys, pt.root(), ptr as int, data, data.len()),
    ensures
        forall|i: int| 0 <= i < data.len() ==> #[trigger] user_byte(phys1, pt.root(), ptr + i) == Some(data[i]),
{
    let root = pt.root();
    let phys0 = mem.phys;
    let n = data.len();
    lemma_user_written_at(phys0, root, ptr as int, data, n);
    let frames = Set::new(|q: int| exists|i: int| 0 <= i < n && (#[trigger] user_place(phys0, root, ptr + i)).unwrap().0 == q);
    assert forall|q: int, o: int|
        #![trigger phys1.byte(q, o)]
        phys0.has_frame(q) && 0 <= o < PAGE_SIZE && !frames.contains(q) implies phys1.byte(q, o) == phys0.byte(q, o) by {
        lemma_place_in_memory(phys0, q, o);
        assert forall|i: int| 0 <= i < n implies phys0.pos(q, o) != #[trigger] place_pos(phys0, root, ptr as int, i) by {
            assert(user_place(phys0, root, ptr + i) is Some);
            let (p, off) = user_place(phys0, root, ptr + i).unwrap();
            assert(p != q);
            lemma_pos_distinct(phys0, q, o, p, off);
        }
    }
    assert(phys0.same_outside(&phys1, frames));
    let mem1 = Memory { allocator: mem.allocator, phys: phys1 };
    pt.lemma_frames_allocated(mem);
    assert(frames.disjoint(pt.frame_set()));
    pt.lemma_frame_local(mem, mem1, frames);
    assert forall|i: int| 0 <= i < n implies #[trigger] user_byte(phys1, root, ptr + i) == Some(data[i]) by {
        assert(user_place(phys0, root, ptr + i) is Some);
        let (p, off) = user_place(phys0, root, ptr + i).unwrap();
        let v = (((ptr + i) % 0x80_0000_0000) / PAGE_SIZE as int) as u64;
        assert(translate_spec(phys1, root, v) == translate_spec(phys0, root, v));
        assert(user_place(phys1, root, ptr + i) == user_place(phys0, root, ptr + i));
        lemma_place_in_memory(phys0, p, off);
        assert(place_pos(phys0, root, ptr as int, i) == phys0.pos(p, off));
    }
}

} // verus!
