//! Physical memory as the kernel sees it: a run of page frames, each `PAGE_SIZE` bytes.
use vstd::prelude::*;
use crate::address::{PhysAddr, PhysPageNum};
use crate::config::PAGE_SIZE;

verus! {

/// Little-endian value of eight bytes.
pub open spec fn compose8(b0: u8, b1: u8, b2: u8, b3: u8, b4: u8, b5: u8, b6: u8, b7: u8) -> u64 {
    (b0 as u64) | ((b1 as u64) << 8u64) | ((b2 as u64) << 16u64) | ((b3 as u64) << 24u64)
        | ((b4 as u64) << 32u64) | ((b5 as u64) << 40u64) | ((b6 as u64) << 48u64) | ((b7 as u64)
        << 56u64)
}

/// Little-endian 64-bit word stored at position `k` of `s`.
pub open spec fn word_at(s: Seq<u8>, k: int) -> u64 {
    compose8(s[k], s[k + 1], s[k + 2], s[k + 3], s[k + 4], s[k + 5], s[k + 6], s[k + 7])
}

/// Byte `i` (0 to 7) of the little-endian representation of `w`.
pub open spec fn byte_of(w: u64, i: u64) -> u8 {
    ((w >> (8 * i)) & 0xff) as u8
}

/// Splitting a word into its eight little-endian bytes and putting them together gives it back.
pub proof fn lemma_word_bytes_roundtrip(w: u64)
    ensures
        compose8(
            byte_of(w, 0),
            byte_of(w, 1),
            byte_of(w, 2),
            byte_of(w, 3),
            byte_of(w, 4),
            byte_of(w, 5),
            byte_of(w, 6),
            byte_of(w, 7),
        ) == w,
{
    assert(compose8(
        ((w >> 0u64) & 0xff) as u8,
        ((w >> 8u64) & 0xff) as u8,
        ((w >> 16u64) & 0xff) as u8,
        ((w >> 24u64) & 0xff) as u8,
        ((w >> 32u64) & 0xff) as u8,
        ((w >> 40u64) & 0xff) as u8,
        ((w >> 48u64) & 0xff) as u8,
        ((w >> 56u64) & 0xff) as u8,
    ) == w) by (bit_vector);
}

/// The frames `[first, first + pages)` of physical memory, stored byte by byte.
pub struct PhysMem {
    first: u64,
    bytes: Vec<u8>,
}

impl PhysMem {
    /// Number of the first frame.
    pub closed spec fn first(&self) -> int {
        self.first as int
    }

    /// All bytes, frame after frame.
    pub closed spec fn bytes(&self) -> Seq<u8> {
        self.bytes@
    }

    /// Number of frames.
    pub open spec fn page_count(&self) -> int {
        self.bytes().len() as int / PAGE_SIZE as int
    }

    /// Sizes fit: whole frames, and every frame number fits in 44 bits.
    pub open spec fn wf(&self) -> bool {
        &&& self.first() >= 0
        &&& self.bytes().len() as int % PAGE_SIZE as int == 0
        &&& self.first() + self.page_count() <= 0x1000_0000_0000
    }

    /// Whether frame `p` is part of this memory.
    pub open spec fn has_frame(&self, p: int) -> bool {
        self.first() <= p < self.first() + self.page_count()
    }

    /// Position of byte `off` of frame `p` in `bytes()`.
    pub open spec fn pos(&self, p: int, off: int) -> int {
        (p - self.first()) * PAGE_SIZE as int + off
    }

    /// Byte `off` of frame `p`.
    pub open spec fn byte(&self, p: int, off: int) -> u8 {
        self.bytes()[self.pos(p, off)]
    }

    /// The bytes of frame `p`.
    pub open spec fn frame(&self, p: int) -> Seq<u8> {
        self.bytes().subrange(self.pos(p, 0), self.pos(p, PAGE_SIZE as int))
    }

    /// Word `idx` (0 to 511) of frame `p`, little-endian.
    pub open spec fn word(&self, p: int, idx: int) -> u64 {
        word_at(self.bytes(), self.pos(p, idx * 8))
    }

    /// Every byte outside the frames of `s` is the same in `self` and `other`.
    pub open spec fn same_outside(&self, other: &PhysMem, s: Set<int>) -> bool {
        &&& self.first() == other.first()
        &&& self.bytes().len() == other.bytes().len()
        &&& forall|p: int, off: int|
            #![trigger other.byte(p, off)]
            self.has_frame(p) && 0 <= off < PAGE_SIZE && !s.contains(p) ==> other.byte(p, off)
                == self.byte(p, off)
    }

    /// Memory of `pages` zeroed frames, the first of which is `first`.
    pub fn new(first: PhysPageNum, pages: usize) -> (r: PhysMem)
        requires
            pages as int * PAGE_SIZE as int <= usize::MAX,
            first.0 + pages <= 0x1000_0000_0000,
        ensures
            r.wf(),
            r.first() == first.0,
            r.page_count() == pages,
            forall|p: int, off: int| r.has_frame(p) && 0 <= off < PAGE_SIZE ==> r.byte(p, off) == 0,
    {
        let n: usize = pages * 4096;
        let bytes = vec![0u8; n];
        let r = PhysMem { first: first.0, bytes };
        assert forall|p: int, off: int| r.has_frame(p) && 0 <= off < PAGE_SIZE implies r.byte(p, off)
            == 0 by {
            assert(0 <= r.pos(p, off) < n) by (nonlinear_arith)
                requires
                    r.first() <= p < r.first() + pages,
                    0 <= off < 4096,
                    r.pos(p, off) == (p - r.first()) * 4096 + off,
                    n == pages * 4096,
            ;
        }
        r
    }

    /// Number of the first frame.
    pub fn first_ppn(&self) -> (r: PhysPageNum)
        ensures
            r.0 == self.first(),
    {
        PhysPageNum(self.first)
    }

    /// Number of frames.
    pub fn pages(&self) -> (r: usize)
        ensures
            r == self.page_count(),
    {
        self.bytes.len() / 4096
    }

    /// Whether frame `p` is part of this memory.
    pub fn contains_frame(&self, p: PhysPageNum) -> (r: bool)
        requires
            self.wf(),
        ensures
            r == self.has_frame(p.0 as int),
    {
        let n = (self.bytes.len() / 4096) as u64;
        p.0 >= self.first && p.0 - self.first < n
    }

    pub proof fn lemma_pos_in_range(&self, p: int, off: int)
        requires
            self.wf(),
            self.has_frame(p),
            0 <= off < PAGE_SIZE,
        ensures
            0 <= self.pos(p, off) < self.bytes().len(),
            self.pos(p, off) + PAGE_SIZE - off <= self.bytes().len(),
    {
        let n = self.page_count();
        assert(0 <= self.pos(p, off) < self.bytes().len() && self.pos(p, off) + 4096 - off <= self.bytes().len()) by (nonlinear_arith)
            requires
                self.first() <= p < self.first() + n,
                0 <= off < 4096,
                self.pos(p, off) == (p - self.first()) * 4096 + off,
                n == self.bytes().len() / 4096,
                self.bytes().len() % 4096 == 0,
        ;
    }

    /// Position in `bytes` of byte `off` of frame `p`.
    fn index_of(&self, p: u64, off: u64) -> (r: usize)
        requires
            self.wf(),
            self.has_frame(p as int),
            off < PAGE_SIZE,
        ensures
            r == self.pos(p as int, off as int),
            r < self.bytes().len(),
    {
        proof {
            self.lemma_pos_in_range(p as int, off as int);
        }
        let n = self.bytes.len();
        assert((p - self.first) as int <= self.bytes().len()) by (nonlinear_arith)
            requires
                (p - self.first()) * 4096 + off < self.bytes().len(),
                p >= self.first(),
        ;
        let rel = (p - self.first) as usize;
        assert(rel as int == p - self.first());
        rel * 4096 + off as usize
    }

    /// Byte `off` of frame `p`.
    pub fn read_byte(&self, p: PhysPageNum, off: u64) -> (r: u8)
        requires
            self.wf(),
            self.has_frame(p.0 as int),
            off < PAGE_SIZE,
        ensures
            r == self.byte(p.0 as int, off as int),
    {
        let i = self.index_of(p.0, off);
        self.bytes[i]
    }

    /// Sets byte `off` of frame `p` to `b`; every other byte keeps its value.
    pub fn write_byte(&mut self, p: PhysPageNum, off: u64, b: u8)
        requires
            old(self).wf(),
            old(self).has_frame(p.0 as int),
            off < PAGE_SIZE,
        ensures
            final(self).wf(),
            final(self).first() == old(self).first(),
            final(self).bytes() == old(self).bytes().update(old(self).pos(p.0 as int, off as int), b),
    {
        let i = self.index_of(p.0, off);
        self.bytes.set(i, b);
    }

    /// Byte at physical address `pa`.
    pub fn read_pa(&self, pa: PhysAddr) -> (r: u8)
        requires
            self.wf(),
            self.has_frame(pa.0 as int / PAGE_SIZE as int),
        ensures
            r == self.byte(pa.0 as int / PAGE_SIZE as int, pa.0 as int % PAGE_SIZE as int),
    {
        self.read_byte(PhysPageNum(pa.0 / 4096), pa.0 % 4096)
    }

    /// Word `idx` (0 to 511) of frame `p`, little-endian.
    pub fn read_word(&self, p: PhysPageNum, idx: u64) -> (r: u64)
        requires
            self.wf(),
            self.has_frame(p.0 as int),
            idx < 512,
        ensures
            r == self.word(p.0 as int, idx as int),
    {
        proof {
            self.lemma_pos_in_range(p.0 as int, idx * 8 + 7);
        }
        let k = self.index_of(p.0, idx * 8);
        let b0 = self.bytes[k] as u64;
        let b1 = self.bytes[k + 1] as u64;
        let b2 = self.bytes[k + 2] as u64;
        let b3 = self.bytes[k + 3] as u64;
        let b4 = self.bytes[k + 4] as u64;
        let b5 = self.bytes[k + 5] as u64;
        let b6 = self.bytes[k + 6] as u64;
        let b7 = self.bytes[k + 7] as u64;
        b0 | (b1 << 8u64) | (b2 << 16u64) | (b3 << 24u64) | (b4 << 32u64) | (b5 << 40u64) | (b6
            << 48u64) | (b7 << 56u64)
    }

    /// Stores `w` little-endian as word `idx` of frame `p`; bytes outside that word keep their values.
    pub fn write_word(&mut self, p: PhysPageNum, idx: u64, w: u64)
        requires
            old(self).wf(),
            old(self).has_frame(p.0 as int),
            idx < 512,
        ensures
            final(self).wf(),
            final(self).first() == old(self).first(),
            final(self).bytes().len() == old(self).bytes().len(),
            final(self).word(p.0 as int, idx as int) == w,
            forall|j: int|
                0 <= j < old(self).bytes().len() && !(old(self).pos(p.0 as int, idx * 8) <= j
                    < old(self).pos(p.0 as int, idx * 8) + 8) ==> #[trigger] final(self).bytes()[j]
                    == old(self).bytes()[j],
            forall|q: int, j: int|
                #![trigger final(self).word(q, j)]
                old(self).has_frame(q) && 0 <= j < 512 && (q != p.0 || j != idx) ==> final(self).word(q, j)
                    == old(self).word(q, j),
            forall|q: int, off: int|
                #![trigger final(self).byte(q, off)]
                old(self).has_frame(q) && 0 <= off < PAGE_SIZE && (q != p.0 || off < idx * 8 || off >= idx
                    * 8 + 8) ==> final(self).byte(q, off) == old(self).byte(q, off),
    {
        proof {
            self.lemma_pos_in_range(p.0 as int, idx * 8 + 7);
            lemma_word_bytes_roundtrip(w);
        }
        let k = self.index_of(p.0, idx * 8);
        self.bytes.set(k, (w & 0xff) as u8);
        self.bytes.set(k + 1, ((w >> 8u64) & 0xff) as u8);
        self.bytes.set(k + 2, ((w >> 16u64) & 0xff) as u8);
        self.bytes.set(k + 3, ((w >> 24u64) & 0xff) as u8);
        self.bytes.set(k + 4, ((w >> 32u64) & 0xff) as u8);
        self.bytes.set(k + 5, ((w >> 40u64) & 0xff) as u8);
        self.bytes.set(k + 6, ((w >> 48u64) & 0xff) as u8);
        self.bytes.set(k + 7, ((w >> 56u64) & 0xff) as u8);
        assert(w >> 0u64 == w) by (bit_vector);
        proof {
            lemma_word_write_effects(&*old(self), &*self, p.0 as int, idx as int);
        }
    }

    /// Sets every byte of frame `p` to zero; other frames keep their bytes.
    pub fn zero_frame(&mut self, p: PhysPageNum)
        requires
            old(self).wf(),
            old(self).has_frame(p.0 as int),
        ensures
            final(self).wf(),
            old(self).same_outside(final(self), set![p.0 as int]),
            forall|off: int| 0 <= off < PAGE_SIZE ==> #[trigger] final(self).byte(p.0 as int, off)
                == 0,
            forall|j: int| 0 <= j < 512 ==> #[trigger] final(self).word(p.0 as int, j) == 0,
    {
        let start = self.index_of(p.0, 0);
        proof {
            self.lemma_pos_in_range(p.0 as int, 0);
        }
        let mut i: usize = 0;
        while i < 4096
            invariant
                self.wf(),
                self.first() == old(self).first(),
                self.bytes().len() == old(self).bytes().len(),
                start == old(self).pos(p.0 as int, 0),
                start + 4096 <= self.bytes().len(),
                0 <= i <= 4096,
                forall|j: int|
                    0 <= j < self.bytes().len() && !(start <= j < start + 4096) ==> #[trigger] self.bytes()[j]
                        == old(self).bytes()[j],
                forall|j: int| start <= j < start + i ==> #[trigger] self.bytes()[j] == 0,
            decreases 4096 - i,
        {
            self.bytes.set(start + i, 0);
            i = i + 1;
        }
        proof {
            let ghost o = *old(self);
            assert forall|q: int, off: int|
                #![trigger self.byte(q, off)]
                o.has_frame(q) && 0 <= off < PAGE_SIZE && !set![p.0 as int].contains(q) implies self.byte(q, off)
                    == o.byte(q, off) by {
                o.lemma_pos_in_range(q, off);
                lemma_pos_distinct(o.first(), q, off, p.0 as int);
            }
            assert forall|j: int| 0 <= j < 512 implies #[trigger] self.word(p.0 as int, j) == 0 by {
                let k = o.pos(p.0 as int, j * 8);
                assert(self.bytes()[k] == 0 && self.bytes()[k + 1] == 0 && self.bytes()[k + 2] == 0
                    && self.bytes()[k + 3] == 0 && self.bytes()[k + 4] == 0 && self.bytes()[k + 5] == 0
                    && self.bytes()[k + 6] == 0 && self.bytes()[k + 7] == 0);
                lemma_compose8_zero();
            }
        }
    }

    /// Copies frame `src` into frame `dst`; other frames keep their bytes.
    pub fn copy_frame(&mut self, dst: PhysPageNum, src: PhysPageNum)
        requires
            old(self).wf(),
            old(self).has_frame(dst.0 as int),
            old(self).has_frame(src.0 as int),
        ensures
            final(self).wf(),
            old(self).same_outside(final(self), set![dst.0 as int]),
            forall|off: int| 0 <= off < PAGE_SIZE ==> #[trigger] final(self).byte(dst.0 as int, off)
                == old(self).byte(src.0 as int, off),
    {
        if dst.0 == src.0 {
            return ;
        }
        let d = self.index_of(dst.0, 0);
        let s = self.index_of(src.0, 0);
        proof {
            self.lemma_pos_in_range(dst.0 as int, 0);
            self.lemma_pos_in_range(src.0 as int, 0);
            lemma_frames_disjoint(self.first(), dst.0 as int, src.0 as int);
        }
        let mut i: usize = 0;
        while i < 4096
            invariant
                self.wf(),
                self.first() == old(self).first(),
                self.bytes().len() == old(self).bytes().len(),
                d == old(self).pos(dst.0 as int, 0),
                s == old(self).pos(src.0 as int, 0),
                d + 4096 <= self.bytes().len(),
                s + 4096 <= self.bytes().len(),
                d + 4096 <= s || s + 4096 <= d,
                0 <= i <= 4096,
                forall|j: int|
                    0 <= j < self.bytes().len() && !(d <= j < d + 4096) ==> #[trigger] self.bytes()[j]
                        == old(self).bytes()[j],
                forall|j: int| 0 <= j < i ==> #[trigger] self.bytes()[d + j] == old(self).bytes()[s + j],
            decreases 4096 - i,
        {
            let b = self.bytes[s + i];
            self.bytes.set(d + i, b);
            i = i + 1;
        }
        proof {
            let ghost o = *old(self);
            assert forall|q: int, off: int|
                #![trigger self.byte(q, off)]
                o.has_frame(q) && 0 <= off < PAGE_SIZE && !set![dst.0 as int].contains(q) implies self.byte(q, off)
                    == o.byte(q, off) by {
                o.lemma_pos_in_range(q, off);
                lemma_pos_distinct(o.first(), q, off, dst.0 as int);
            }
            assert forall|off: int| 0 <= off < PAGE_SIZE implies #[trigger] self.byte(dst.0 as int, off)
                == o.byte(src.0 as int, off) by {
                assert(self.bytes()[d + off] == o.bytes()[s + off]);
            }
        }
    }
}

/// What a write of word `idx` of frame `p` leaves unchanged, word by word and byte by byte.
proof fn lemma_word_write_effects(o: &PhysMem, n: &PhysMem, p: int, idx: int)
    requires
        o.wf(),
        o.has_frame(p),
        0 <= idx < 512,
        n.first() == o.first(),
        n.bytes().len() == o.bytes().len(),
        forall|j: int|
            0 <= j < o.bytes().len() && !(o.pos(p, idx * 8) <= j < o.pos(p, idx * 8) + 8)
                ==> #[trigger] n.bytes()[j] == o.bytes()[j],
    ensures
        forall|q: int, j: int|
            #![trigger n.word(q, j)]
            o.has_frame(q) && 0 <= j < 512 && (q != p || j != idx) ==> n.word(q, j) == o.word(q, j),
        forall|q: int, off: int|
            #![trigger n.byte(q, off)]
            o.has_frame(q) && 0 <= off < PAGE_SIZE && (q != p || off < idx * 8 || off >= idx * 8 + 8)
                ==> n.byte(q, off) == o.byte(q, off),
{
    assert forall|q: int, j: int|
        #![trigger n.word(q, j)]
        o.has_frame(q) && 0 <= j < 512 && (q != p || j != idx) implies n.word(q, j) == o.word(q, j) by {
        o.lemma_pos_in_range(q, j * 8 + 7);
        lemma_word_slots_disjoint(o.first(), q, j, p, idx);
        let k = o.pos(q, j * 8);
        assert(n.bytes()[k] == o.bytes()[k]);
        assert(n.bytes()[k + 1] == o.bytes()[k + 1]);
        assert(n.bytes()[k + 2] == o.bytes()[k + 2]);
        assert(n.bytes()[k + 3] == o.bytes()[k + 3]);
        assert(n.bytes()[k + 4] == o.bytes()[k + 4]);
        assert(n.bytes()[k + 5] == o.bytes()[k + 5]);
        assert(n.bytes()[k + 6] == o.bytes()[k + 6]);
        assert(n.bytes()[k + 7] == o.bytes()[k + 7]);
    }
    assert forall|q: int, off: int|
        #![trigger n.byte(q, off)]
        o.has_frame(q) && 0 <= off < PAGE_SIZE && (q != p || off < idx * 8 || off >= idx * 8 + 8)
            implies n.byte(q, off) == o.byte(q, off) by {
        o.lemma_pos_in_range(q, off);
        if q != p {
            lemma_pos_distinct_word(o.first(), q, off, p, idx);
        }
    }
}


/// Agreeing outside `s1` and then outside `s2` means agreeing outside any set that holds both.
pub proof fn lemma_same_outside_trans(m1: &PhysMem, m2: &PhysMem, m3: &PhysMem, s1: Set<int>, s2: Set<int>, s: Set<int>)
    requires
        m1.same_outside(m2, s1),
        m2.same_outside(m3, s2),
        s1.subset_of(s),
        s2.subset_of(s),
    ensures
        m1.same_outside(m3, s),
{
    assert forall|p: int, off: int|
        #![trigger m3.byte(p, off)]
        m1.has_frame(p) && 0 <= off < PAGE_SIZE && !s.contains(p) implies m3.byte(p, off) == m1.byte(p, off) by {
        assert(m2.byte(p, off) == m1.byte(p, off));
    }
}

/// Memory agrees with itself outside any set.
pub proof fn lemma_same_outside_refl(m: &PhysMem, s: Set<int>)
    ensures
        m.same_outside(m, s),
{
}

/// Eight zero bytes make the word zero.
pub proof fn lemma_compose8_zero()
    ensures
        compose8(0, 0, 0, 0, 0, 0, 0, 0) == 0,
{
    assert(compose8(0, 0, 0, 0, 0, 0, 0, 0) == 0) by (bit_vector);
}

/// Memories that agree on the bytes of word `i` of frame `p` agree on that word.
pub proof fn lemma_word_from_bytes(m1: &PhysMem, m2: &PhysMem, p: int, i: int)
    requires
        m1.first() == m2.first(),
        0 <= i < 512,
        forall|off: int| i * 8 <= off < i * 8 + 8 ==> m2.byte(p, off) == m1.byte(p, off),
    ensures
        m2.word(p, i) == m1.word(p, i),
{
    let k = m1.pos(p, i * 8);
    assert(m2.byte(p, i * 8) == m1.byte(p, i * 8));
    assert(m2.byte(p, i * 8 + 1) == m1.byte(p, i * 8 + 1));
    assert(m2.byte(p, i * 8 + 2) == m1.byte(p, i * 8 + 2));
    assert(m2.byte(p, i * 8 + 3) == m1.byte(p, i * 8 + 3));
    assert(m2.byte(p, i * 8 + 4) == m1.byte(p, i * 8 + 4));
    assert(m2.byte(p, i * 8 + 5) == m1.byte(p, i * 8 + 5));
    assert(m2.byte(p, i * 8 + 6) == m1.byte(p, i * 8 + 6));
    assert(m2.byte(p, i * 8 + 7) == m1.byte(p, i * 8 + 7));
}

/// Word `i` of frame `q` in `m2` is word `i` of frame `p` in `m1` when their bytes are.
pub proof fn lemma_word_from_bytes_of(m1: &PhysMem, m2: &PhysMem, p: int, q: int, i: int)
    requires
        0 <= i < 512,
        forall|off: int| i * 8 <= off < i * 8 + 8 ==> m2.byte(q, off) == m1.byte(p, off),
    ensures
        m2.word(q, i) == m1.word(p, i),
{
    assert(m2.byte(q, i * 8) == m1.byte(p, i * 8));
    assert(m2.byte(q, i * 8 + 1) == m1.byte(p, i * 8 + 1));
    assert(m2.byte(q, i * 8 + 2) == m1.byte(p, i * 8 + 2));
    assert(m2.byte(q, i * 8 + 3) == m1.byte(p, i * 8 + 3));
    assert(m2.byte(q, i * 8 + 4) == m1.byte(p, i * 8 + 4));
    assert(m2.byte(q, i * 8 + 5) == m1.byte(p, i * 8 + 5));
    assert(m2.byte(q, i * 8 + 6) == m1.byte(p, i * 8 + 6));
    assert(m2.byte(q, i * 8 + 7) == m1.byte(p, i * 8 + 7));
}

/// Memories that agree outside the frames of `s` agree on the words of frames outside `s`.
pub proof fn lemma_same_outside_word(m1: &PhysMem, m2: &PhysMem, s: Set<int>, p: int, i: int)
    requires
        m1.same_outside(m2, s),
        m1.has_frame(p),
        !s.contains(p),
        0 <= i < 512,
    ensures
        m2.word(p, i) == m1.word(p, i),
{
    assert forall|off: int| i * 8 <= off < i * 8 + 8 implies m2.byte(p, off) == m1.byte(p, off) by {}
    lemma_word_from_bytes(m1, m2, p, i);
}

/// Word `j` of frame `q` and word `i` of frame `p` occupy different bytes unless they are the same word.
pub proof fn lemma_word_slots_disjoint(first: int, q: int, j: int, p: int, i: int)
    requires
        0 <= j < 512,
        0 <= i < 512,
        q != p || j != i,
    ensures
        (q - first) * 4096 + j * 8 + 8 <= (p - first) * 4096 + i * 8 || (p - first) * 4096 + i * 8
            + 8 <= (q - first) * 4096 + j * 8,
{
    assert((q - first) * 4096 + j * 8 + 8 <= (p - first) * 4096 + i * 8 || (p - first) * 4096 + i * 8
        + 8 <= (q - first) * 4096 + j * 8) by (nonlinear_arith)
        requires
            0 <= j < 512,
            0 <= i < 512,
            q != p || j != i,
    ;
}

/// Byte `off` of frame `q` is not in word `i` of another frame `p`.
pub proof fn lemma_pos_distinct_word(first: int, q: int, off: int, p: int, i: int)
    requires
        q != p,
        0 <= off < 4096,
        0 <= i < 512,
    ensures
        !((p - first) * 4096 + i * 8 <= (q - first) * 4096 + off < (p - first) * 4096 + i * 8 + 8),
{
    assert(!((p - first) * 4096 + i * 8 <= (q - first) * 4096 + off < (p - first) * 4096 + i * 8 + 8)) by (nonlinear_arith)
        requires
            q != p,
            0 <= off < 4096,
            0 <= i < 512,
    ;
}

/// A byte of frame `q` does not lie in frame `p` when the frames differ.
pub proof fn lemma_pos_distinct(first: int, q: int, off: int, p: int)
    requires
        q != p,
        0 <= off < 4096,
    ensures
        !((p - first) * 4096 <= (q - first) * 4096 + off < (p - first) * 4096 + 4096),
{
    assert(!((p - first) * 4096 <= (q - first) * 4096 + off < (p - first) * 4096 + 4096)) by (nonlinear_arith)
        requires
            q != p,
            0 <= off < 4096,
    ;
}

/// Two different frames do not overlap.
pub proof fn lemma_frames_disjoint(first: int, p: int, q: int)
    requires
        p != q,
    ensures
        (p - first) * 4096 + 4096 <= (q - first) * 4096 || (q - first) * 4096 + 4096 <= (p - first)
            * 4096,
{
    assert((p - first) * 4096 + 4096 <= (q - first) * 4096 || (q - first) * 4096 + 4096 <= (p - first)
        * 4096) by (nonlinear_arith)
        requires
            p != q,
    ;
}

} // verus!
