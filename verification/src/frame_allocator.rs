//! The frame allocator, which hands out and takes back the physical frames of the system.
use vstd::prelude::*;
use crate::address::{PhysAddr, PhysPageNum};
use crate::config::{MEMORY_END, PAGE_SIZE};
use crate::phys_mem::PhysMem;

verus! {

/// Hands out frames `[current, end)` in order, and reuses freed frames last-in first-out.
pub struct StackFrameAllocator {
    current: u64,
    end: u64,
    recycled: Vec<u64>,
}

impl StackFrameAllocator {
    /// First frame never handed out.
    pub closed spec fn current(&self) -> int {
        self.current as int
    }

    /// End of the range of frames to hand out.
    pub closed spec fn end(&self) -> int {
        self.end as int
    }

    /// Freed frames, the most recently freed last.
    pub closed spec fn recycled(&self) -> Seq<u64> {
        self.recycled@
    }

    /// No frame is freed twice, freed frames were handed out, and the cursor stays in range.
    pub open spec fn wf(&self) -> bool {
        &&& self.recycled().no_duplicates()
        &&& forall|i: int| 0 <= i < self.recycled().len() ==> #[trigger] self.recycled()[i] < self.current()
        &&& self.current() <= self.end()
    }

    /// Frame `p` is handed out: below the cursor and not freed since.
    pub open spec fn is_allocated(&self, p: int) -> bool {
        0 <= p < self.current() && !self.recycled().contains(p as u64)
    }

    /// Number of frames that can still be handed out.
    pub open spec fn free_count(&self) -> int {
        self.recycled().len() + self.end() - self.current()
    }

    /// An allocator with nothing to hand out.
    pub fn new() -> (r: Self)
        ensures
            r.wf(),
            r.current() == 0,
            r.end() == 0,
            r.recycled() == Seq::<u64>::empty(),
    {
        StackFrameAllocator { current: 0, end: 0, recycled: Vec::new() }
    }

    /// Hands out frames `[l, r)` from now on.
    pub fn init(&mut self, l: PhysPageNum, r: PhysPageNum)
        requires
            old(self).recycled().len() == 0,
            l.0 <= r.0,
        ensures
            final(self).wf(),
            final(self).current() == l.0,
            final(self).end() == r.0,
            final(self).recycled() == old(self).recycled(),
    {
        self.current = l.0;
        self.end = r.0;
    }

    /// Hands out the most recently freed frame, or else the next never-used one; `None` when
    /// there is neither.
    pub fn allocate(&mut self) -> (r: Option<PhysPageNum>)
        requires
            old(self).wf(),
        ensures
            final(self).wf(),
            final(self).end() == old(self).end(),
            r matches Some(p) ==> p.0 < old(self).end(),
            old(self).recycled().len() > 0 ==> {
                &&& r == Some(PhysPageNum(old(self).recycled().last()))
                &&& final(self).recycled() == old(self).recycled().drop_last()
                &&& final(self).current() == old(self).current()
            },
            old(self).recycled().len() == 0 && old(self).current() < old(self).end() ==> {
                &&& r == Some(PhysPageNum(old(self).current() as u64))
                &&& final(self).recycled() == old(self).recycled()
                &&& final(self).current() == old(self).current() + 1
            },
            old(self).recycled().len() == 0 && old(self).current() == old(self).end() ==> {
                &&& r is None
                &&& final(self).recycled() == old(self).recycled()
                &&& final(self).current() == old(self).current()
            },
    {
        if let Some(ppn) = self.recycled.pop() {
            proof {
                assert(self.recycled() =~= old(self).recycled().drop_last());
                assert forall|i: int| 0 <= i < self.recycled().len() implies #[trigger] self.recycled()[i]
                    < self.current() by {
                    assert(self.recycled()[i] == old(self).recycled()[i]);
                }
            }
            Some(PhysPageNum(ppn))
        } else if self.current == self.end {
            None
        } else {
            self.current = self.current + 1;
            Some(PhysPageNum(self.current - 1))
        }
    }

    /// Takes back frame `ppn`, which must be handed out and not freed since.
    pub fn dealloc(&mut self, ppn: PhysPageNum)
        requires
            old(self).wf(),
            old(self).is_allocated(ppn.0 as int),
        ensures
            final(self).wf(),
            final(self).recycled() == old(self).recycled().push(ppn.0),
            final(self).current() == old(self).current(),
            final(self).end() == old(self).end(),
    {
        let p = ppn.0;
        self.recycled.push(p);
        proof {
            assert forall|a: int, b: int|
                0 <= a < self.recycled().len() && 0 <= b < self.recycled().len() && a != b implies self.recycled()[a]
                != self.recycled()[b] by {
                if a < old(self).recycled().len() && b < old(self).recycled().len() {
                    assert(old(self).recycled()[a] != old(self).recycled()[b]);
                }
            }
            assert forall|j: int| 0 <= j < self.recycled().len() implies #[trigger] self.recycled()[j]
                < self.current() by {
                if j < old(self).recycled().len() {
                    assert(old(self).recycled()[j] == self.recycled()[j]);
                }
            }
        }
    }
}

/// A frame that is in use. Freeing it is an explicit call of `Memory::frame_dealloc`.
#[derive(Clone, Copy, PartialEq, Eq, Structural, Debug)]
pub struct FrameTracker {
    /// physical page number
    pub ppn: PhysPageNum,
}

impl FrameTracker {
    /// Takes frame `ppn` into use: its bytes are set to zero.
    pub fn new(phys: &mut PhysMem, ppn: PhysPageNum) -> (r: Self)
        requires
            old(phys).wf(),
            old(phys).has_frame(ppn.0 as int),
        ensures
            r.ppn == ppn,
            final(phys).wf(),
            old(phys).same_outside(final(phys), set![ppn.0 as int]),
            forall|off: int| 0 <= off < PAGE_SIZE ==> #[trigger] final(phys).byte(ppn.0 as int, off)
                == 0,
            forall|j: int| 0 <= j < 512 ==> #[trigger] final(phys).word(ppn.0 as int, j) == 0,
    {
        phys.zero_frame(ppn);
        FrameTracker { ppn }
    }
}

/// Physical memory together with the allocator of its frames.
pub struct Memory {
    /// the frame allocator
    pub allocator: StackFrameAllocator,
    /// the frames themselves
    pub phys: PhysMem,
}

impl Memory {
    /// Every frame that the allocator can hand out exists in physical memory.
    pub open spec fn wf(&self) -> bool {
        &&& self.allocator.wf()
        &&& self.phys.wf()
        &&& forall|i: int|
            0 <= i < self.allocator.recycled().len() ==> #[trigger] self.phys.has_frame(
                self.allocator.recycled()[i] as int,
            )
        &&& self.allocator.current() < self.allocator.end() ==> self.phys.has_frame(
            self.allocator.current(),
        ) && self.phys.has_frame(self.allocator.end() - 1)
    }

    /// Frame `p` is handed out.
    pub open spec fn allocated(&self, p: int) -> bool {
        self.allocator.is_allocated(p)
    }

    /// Memory stays well formed when only bytes of frames change.
    pub proof fn lemma_wf_bytes_changed(m0: Memory, m1: Memory)
        requires
            m0.wf(),
            m1.allocator == m0.allocator,
            m1.phys.wf(),
            m1.phys.first() == m0.phys.first(),
            m1.phys.bytes().len() == m0.phys.bytes().len(),
        ensures
            m1.wf(),
    {
        assert forall|i: int| 0 <= i < m1.allocator.recycled().len() implies #[trigger] m1.phys.has_frame(
            m1.allocator.recycled()[i] as int) by {
            assert(m0.phys.has_frame(m0.allocator.recycled()[i] as int));
        }
    }

    /// Takes a free frame into use, zeroed; `None` when no frame is free.
    pub fn frame_alloc(&mut self) -> (r: Option<FrameTracker>)
        requires
            old(self).wf(),
        ensures
            final(self).wf(),
            final(self).allocator.end() == old(self).allocator.end(),
            r is None <==> old(self).allocator.free_count() == 0,
            r is None ==> final(self).phys == old(self).phys && final(self).allocator.recycled()
                == old(self).allocator.recycled() && final(self).allocator.current()
                == old(self).allocator.current(),
            r matches Some(f) ==> {
                &&& !old(self).allocated(f.ppn.0 as int)
                &&& final(self).allocated(f.ppn.0 as int)
                &&& final(self).phys.has_frame(f.ppn.0 as int)
                &&& forall|q: int| q != f.ppn.0 ==> final(self).allocated(q) == old(self).allocated(q)
                &&& final(self).allocator.free_count() == old(self).allocator.free_count() - 1
                &&& old(self).phys.same_outside(&final(self).phys, set![f.ppn.0 as int])
                &&& forall|off: int|
                    0 <= off < PAGE_SIZE ==> #[trigger] final(self).phys.byte(f.ppn.0 as int, off)
                        == 0
                &&& forall|j: int| 0 <= j < 512 ==> #[trigger] final(self).phys.word(f.ppn.0 as int, j) == 0
                &&& old(self).allocator.recycled().len() > 0 ==> f.ppn.0 == old(self).allocator.recycled().last()
                    && final(self).allocator.recycled() == old(self).allocator.recycled().drop_last()
            },
    {
        let ghost a0 = self.allocator;
        match self.allocator.allocate() {
            None => None,
            Some(ppn) => {
                proof {
                    if a0.recycled().len() > 0 {
                        let last = a0.recycled().len() - 1;
                        assert(self.phys.has_frame(a0.recycled()[last] as int));
                        assert(a0.recycled().contains(ppn.0));
                        assert forall|q: int| q != ppn.0 implies self.allocated(q) == a0.is_allocated(q) by {
                            if 0 <= q < a0.current() {
                                if a0.recycled().contains(q as u64) {
                                    let k = choose|k: int| 0 <= k < a0.recycled().len() && a0.recycled()[k] == q as u64;
                                    assert(k != last);
                                    assert(self.allocator.recycled()[k] == q as u64);
                                }
                                if self.allocator.recycled().contains(q as u64) {
                                    let k = choose|k: int| 0 <= k < self.allocator.recycled().len() && self.allocator.recycled()[k] == q as u64;
                                    assert(a0.recycled()[k] == q as u64);
                                }
                            }
                        }
                        assert(!self.allocator.recycled().contains(ppn.0)) by {
                            if self.allocator.recycled().contains(ppn.0) {
                                let k = choose|k: int| 0 <= k < self.allocator.recycled().len() && self.allocator.recycled()[k] == ppn.0;
                                assert(a0.recycled()[k] == a0.recycled()[last]);
                            }
                        }
                    } else {
                        assert(!a0.recycled().contains(ppn.0));
                        assert forall|q: int| q != ppn.0 implies self.allocated(q) == a0.is_allocated(q) by {}
                    }
                    assert forall|i: int| 0 <= i < self.allocator.recycled().len() implies #[trigger] self.phys.has_frame(
                        self.allocator.recycled()[i] as int) by {
                        assert(self.allocator.recycled()[i] == a0.recycled()[i]);
                    }
                }
                let ghost before = self.phys;
                let f = FrameTracker::new(&mut self.phys, ppn);
                proof {
                    assert forall|i: int| 0 <= i < self.allocator.recycled().len() implies #[trigger] self.phys.has_frame(
                        self.allocator.recycled()[i] as int) by {
                        assert(before.has_frame(self.allocator.recycled()[i] as int));
                    }
                }
                Some(f)
            },
        }
    }

    /// Gives frame `ppn` back to the allocator; it must be handed out and not freed since.
    pub fn frame_dealloc(&mut self, ppn: PhysPageNum)
        requires
            old(self).wf(),
            old(self).allocated(ppn.0 as int),
            old(self).phys.has_frame(ppn.0 as int),
        ensures
            final(self).wf(),
            final(self).phys == old(self).phys,
            final(self).allocator.end() == old(self).allocator.end(),
            final(self).allocator.free_count() == old(self).allocator.free_count() + 1,
            !final(self).allocated(ppn.0 as int),
            forall|q: int| q != ppn.0 ==> final(self).allocated(q) == old(self).allocated(q),
            final(self).allocator.recycled() == old(self).allocator.recycled().push(ppn.0),
    {
        let ghost a0 = self.allocator;
        self.allocator.dealloc(ppn);
        proof {
            assert(self.allocator.recycled()[self.allocator.recycled().len() - 1] == ppn.0);
            assert forall|q: int| q != ppn.0 implies self.allocated(q) == a0.is_allocated(q) by {
                if a0.recycled().contains(q as u64) {
                    let k = choose|k: int| 0 <= k < a0.recycled().len() && a0.recycled()[k] == q as u64;
                    assert(self.allocator.recycled()[k] == q as u64);
                }
                if 0 <= q < a0.current() && self.allocator.recycled().contains(q as u64) {
                    let k = choose|k: int| 0 <= k < self.allocator.recycled().len() && self.allocator.recycled()[k] == q as u64;
                    if k == a0.recycled().len() {
                        assert(self.allocator.recycled()[k] == ppn.0);
                    }
                    assert(a0.recycled()[k] == q as u64);
                }
            }
            assert forall|i: int| 0 <= i < self.allocator.recycled().len() implies #[trigger] self.phys.has_frame(
                self.allocator.recycled()[i] as int) by {
                if i < a0.recycled().len() {
                    assert(self.allocator.recycled()[i] == a0.recycled()[i]);
                }
            }
        }
    }
}

/// Sets up the allocator to hand out the frames from the end of the kernel image, `ekernel`,
/// rounded up, to `MEMORY_END`, rounded down.
pub fn init_frame_allocator(allocator: &mut StackFrameAllocator, ekernel: PhysAddr)
    requires
        old(allocator).recycled().len() == 0,
        ekernel.0 <= MEMORY_END,
    ensures
        final(allocator).wf(),
        final(allocator).current() == crate::address::ceil_page(ekernel.0 as int),
        final(allocator).end() == MEMORY_END / PAGE_SIZE,
        final(allocator).recycled() == old(allocator).recycled(),
{
    let l = ekernel.ceil();
    let r = PhysAddr(MEMORY_END).floor();
    allocator.init(l, r);
}

/// The frame numbers of `frames`, in order.
pub open spec fn ppns(frames: Seq<PhysPageNum>) -> Seq<u64> {
    frames.map_values(|f: PhysPageNum| f.0)
}

/// Frame `q` is one of `frames`.
pub open spec fn holds_ppn(frames: Seq<PhysPageNum>, q: int) -> bool {
    exists|k: int| 0 <= k < frames.len() && #[trigger] frames[k].0 == q
}

/// Gives back the frames of `frames`, first to last; they must be distinct, handed out and in
/// memory.
fn give_back(mem: &mut Memory, frames: &Vec<PhysPageNum>)
    requires
        old(mem).wf(),
        ppns(frames@).no_duplicates(),
        forall|k: int| 0 <= k < frames@.len() ==> old(mem).allocated(#[trigger] frames@[k].0 as int)
            && old(mem).phys.has_frame(frames@[k].0 as int),
    ensures
        final(mem).wf(),
        final(mem).phys == old(mem).phys,
        final(mem).allocator.end() == old(mem).allocator.end(),
        final(mem).allocator.free_count() == old(mem).allocator.free_count() + frames@.len(),
        final(mem).allocator.recycled() == old(mem).allocator.recycled() + ppns(frames@),
        forall|q: int| #[trigger] final(mem).allocated(q) == (old(mem).allocated(q) && !holds_ppn(frames@, q)),
{
    let n = frames.len();
    let mut i: usize = 0;
    while i < n
        invariant
            n == frames@.len(),
            0 <= i <= n,
            mem.wf(),
            mem.phys == old(mem).phys,
            mem.allocator.end() == old(mem).allocator.end(),
            mem.allocator.free_count() == old(mem).allocator.free_count() + i,
            ppns(frames@).no_duplicates(),
            forall|k: int| 0 <= k < frames@.len() ==> old(mem).allocated(#[trigger] frames@[k].0 as int)
                && old(mem).phys.has_frame(frames@[k].0 as int),
            mem.allocator.recycled() == old(mem).allocator.recycled() + ppns(frames@).take(i as int),
            forall|q: int| #[trigger] mem.allocated(q) == (old(mem).allocated(q) && !holds_ppn(frames@.take(i as int), q)),
        decreases n - i,
    {
        let f = frames[i];
        proof {
            assert(ppns(frames@)[i as int] == f.0);
            assert(!holds_ppn(frames@.take(i as int), f.0 as int)) by {
                if holds_ppn(frames@.take(i as int), f.0 as int) {
                    let k = choose|k: int| 0 <= k < i && #[trigger] frames@.take(i as int)[k].0 == f.0 as int;
                    assert(ppns(frames@)[k] == ppns(frames@)[i as int]);
                }
            }
        }
        mem.frame_dealloc(f);
        proof {
            let t0 = frames@.take(i as int);
            let t1 = frames@.take(i + 1);
            assert(t1 =~= t0.push(f));
            assert(ppns(frames@).take(i + 1) =~= ppns(frames@).take(i as int).push(f.0));
            assert(mem.allocator.recycled() =~= old(mem).allocator.recycled() + ppns(frames@).take(i + 1));
            assert forall|q: int| #[trigger] mem.allocated(q) == (old(mem).allocated(q) && !holds_ppn(t1, q)) by {
                if q == f.0 {
                    assert(t1[i as int].0 == f.0);
                } else {
                    if holds_ppn(t1, q) {
                        let k = choose|k: int| 0 <= k < t1.len() && #[trigger] t1[k].0 == q;
                        assert(t0[k].0 == q);
                    }
                    if holds_ppn(t0, q) {
                        let k = choose|k: int| 0 <= k < t0.len() && #[trigger] t0[k].0 == q;
                        assert(t1[k].0 == q);
                    }
                }
            }
        }
        i = i + 1;
    }
    proof {
        assert(ppns(frames@).take(n as int) =~= ppns(frames@));
        assert(frames@.take(n as int) =~= frames@);
    }
}

/// Takes five frames, gives them all back in the order taken, and takes five again, giving those
/// back too: returns the two lists of frames taken. The second is the first reversed, as frames
/// given back last are handed out first. `None`, with every frame given back, when fewer than five
/// frames are free.
pub fn frame_allocator_test(mem: &mut Memory) -> (r: Option<(Vec<PhysPageNum>, Vec<PhysPageNum>)>)
    requires
        old(mem).wf(),
    ensures
        final(mem).wf(),
        final(mem).allocator.free_count() == old(mem).allocator.free_count(),
        forall|q: int| #[trigger] final(mem).allocated(q) == old(mem).allocated(q),
        r is Some <==> old(mem).allocator.free_count() >= 5,
        r matches Some((first, second)) ==> {
            &&& first@.len() == 5
            &&& ppns(first@).no_duplicates()
            &&& forall|k: int| 0 <= k < 5 ==> !old(mem).allocated(#[trigger] first@[k].0 as int)
            &&& second@ == first@.reverse()
        },
{
    let ghost mem0 = *mem;
    let mut first: Vec<PhysPageNum> = Vec::new();
    let mut i: usize = 0;
    while i < 5
        invariant
            0 <= i <= 5,
            first@.len() == i,
            mem.wf(),
            mem0 == *old(mem),
            mem0.wf(),
            mem.allocator.end() == mem0.allocator.end(),
            mem.allocator.free_count() == mem0.allocator.free_count() - i,
            ppns(first@).no_duplicates(),
            forall|k: int| 0 <= k < i ==> !mem0.allocated(#[trigger] first@[k].0 as int) && mem.allocated(first@[k].0 as int)
                && mem.phys.has_frame(first@[k].0 as int),
            forall|q: int| #[trigger] mem.allocated(q) == (mem0.allocated(q) || holds_ppn(first@, q)),
        decreases 5 - i,
    {
        let ghost before = *mem;
        let ghost first0 = first@;
        match mem.frame_alloc() {
            Some(f) => {
                first.push(f.ppn);
                proof {
                    assert(first@ =~= first0.push(f.ppn));
                    assert(ppns(first@) =~= ppns(first0).push(f.ppn.0));
                    assert forall|k: int| 0 <= k < first0.len() implies #[trigger] ppns(first0)[k] != f.ppn.0 by {
                        assert(before.allocated(first0[k].0 as int));
                    }
                    assert forall|k: int| 0 <= k < first@.len() implies !mem0.allocated(#[trigger] first@[k].0 as int)
                        && mem.allocated(first@[k].0 as int) && mem.phys.has_frame(first@[k].0 as int) by {
                        if k < first0.len() {
                            assert(first@[k] == first0[k]);
                            assert(ppns(first0)[k] != f.ppn.0);
                        }
                    }
                    assert forall|q: int| #[trigger] mem.allocated(q) == (mem0.allocated(q) || holds_ppn(first@, q)) by {
                        if q == f.ppn.0 {
                            assert(first@[first0.len() as int].0 == q);
                        } else {
                            if holds_ppn(first@, q) {
                                let k = choose|k: int| 0 <= k < first@.len() && #[trigger] first@[k].0 == q;
                                assert(first0[k].0 == q);
                            }
                            if holds_ppn(first0, q) {
                                let k = choose|k: int| 0 <= k < first0.len() && #[trigger] first0[k].0 == q;
                                assert(first@[k].0 == q);
                            }
                        }
                    }
                }
            },
            None => {
                proof {
                    assert(mem.allocator.free_count() == before.allocator.free_count());
                    assert forall|q: int| #[trigger] mem.allocated(q) == (mem0.allocated(q) || holds_ppn(first@, q)) by {
                        assert(before.allocated(q) == (mem0.allocated(q) || holds_ppn(first@, q)));
                    }
                    assert forall|k: int| 0 <= k < first@.len() implies mem.allocated(#[trigger] first@[k].0 as int)
                        && mem.phys.has_frame(first@[k].0 as int) by {
                        assert(before.allocated(first@[k].0 as int));
                    }
                }
                give_back(mem, &first);
                proof {
                    assert forall|q: int| #[trigger] mem.allocated(q) == mem0.allocated(q) by {
                        if holds_ppn(first@, q) {
                            let k = choose|k: int| 0 <= k < first@.len() && #[trigger] first@[k].0 == q;
                            assert(!mem0.allocated(first@[k].0 as int));
                        }
                    }
                }
                return None;
            },
        }
        i = i + 1;
    }
    let ghost taken = *mem;
    give_back(mem, &first);
    let ghost r1 = taken.allocator.recycled();
    proof {
        assert(ppns(first@).take(5) =~= ppns(first@));
    }
    let mut second: Vec<PhysPageNum> = Vec::new();
    let mut j: usize = 0;
    while j < 5
        invariant
            0 <= j <= 5,
            first@.len() == 5,
            second@.len() == j,
            mem.wf(),
            mem0.wf(),
            ppns(first@).no_duplicates(),
            forall|k: int| 0 <= k < 5 ==> !mem0.allocated(#[trigger] first@[k].0 as int),
            mem.allocator.end() == mem0.allocator.end(),
            mem.allocator.free_count() == mem0.allocator.free_count() - j,
            mem.allocator.recycled() == r1 + ppns(first@).take(5 - j),
            forall|k: int| 0 <= k < j ==> #[trigger] second@[k] == first@[4 - k],
            forall|k: int| 0 <= k < j ==> mem.allocated(#[trigger] second@[k].0 as int) && mem.phys.has_frame(second@[k].0 as int),
            forall|q: int| #[trigger] mem.allocated(q) == (mem0.allocated(q) || holds_ppn(second@, q)),
        decreases 5 - j,
    {
        let ghost before = *mem;
        let ghost second0 = second@;
        proof {
            assert(mem.allocator.recycled().last() == ppns(first@)[4 - j]);
        }
        let f = mem.frame_alloc().unwrap();
        second.push(f.ppn);
        proof {
            assert(f.ppn == first@[4 - j]);
            assert(second@ =~= second0.push(f.ppn));
            assert(ppns(first@).take(5 - j).drop_last() =~= ppns(first@).take(4 - j));
            assert(mem.allocator.recycled() =~= r1 + ppns(first@).take(4 - j));
            assert forall|k: int| 0 <= k < j + 1 implies mem.allocated(#[trigger] second@[k].0 as int) && mem.phys.has_frame(second@[k].0 as int) by {
                if k < j {
                    assert(second@[k] == second0[k]);
                    assert(before.allocated(second0[k].0 as int));
                    assert(before.phys.has_frame(second0[k].0 as int));
                }
            }
            assert forall|q: int| #[trigger] mem.allocated(q) == (mem0.allocated(q) || holds_ppn(second@, q)) by {
                if q == f.ppn.0 {
                    assert(second@[j as int].0 == q);
                } else {
                    if holds_ppn(second@, q) {
                        let k = choose|k: int| 0 <= k < second@.len() && #[trigger] second@[k].0 == q;
                        assert(second0[k].0 == q);
                    }
                    if holds_ppn(second0, q) {
                        let k = choose|k: int| 0 <= k < second0.len() && #[trigger] second0[k].0 == q;
                        assert(second@[k].0 == q);
                    }
                }
            }
        }
        j = j + 1;
    }
    proof {
        assert(second@ =~= first@.reverse());
        assert forall|a: int, b: int| 0 <= a < 5 && 0 <= b < 5 && a != b implies ppns(second@)[a] != ppns(second@)[b] by {
            assert(ppns(first@)[4 - a] != ppns(first@)[4 - b]);
        }
    }
    give_back(mem, &second);
    proof {
        assert forall|q: int| #[trigger] mem.allocated(q) == mem0.allocated(q) by {
            if holds_ppn(second@, q) {
                let k = choose|k: int| 0 <= k < 5 && #[trigger] second@[k].0 == q;
                assert(second@[k] == first@[4 - k]);
                assert(!mem0.allocated(first@[4 - k].0 as int));
            }
        }
    }
    Some((first, second))
}
} // verus!
