//! Page table entries and three-level Sv39 page tables kept in physical memory.
use vstd::prelude::*;
use crate::address::{PhysAddr, PhysPageNum, VirtAddr, VirtPageNum};
use crate::config::PAGE_SIZE;
use crate::frame_allocator::{FrameTracker, Memory};
use crate::phys_mem::{PhysMem, lemma_same_outside_trans, lemma_same_outside_refl, lemma_same_outside_word};

verus! {

/// Flags of a page table entry.
#[derive(Clone, Copy, PartialEq, Eq, Structural, Debug)]
pub struct PTEFlags {
    /// the flag bits
    pub bits: u8,
}

#[allow(non_snake_case)]
impl PTEFlags {
    /// Valid.
    pub fn V() -> (r: Self)
        ensures
            r.bits == 1,
    {
        PTEFlags { bits: 1 }
    }

    /// Readable.
    pub fn R() -> (r: Self)
        ensures
            r.bits == 2,
    {
        PTEFlags { bits: 2 }
    }

    /// Writable.
    pub fn W() -> (r: Self)
        ensures
            r.bits == 4,
    {
        PTEFlags { bits: 4 }
    }

    /// Executable.
    pub fn X() -> (r: Self)
        ensures
            r.bits == 8,
    {
        PTEFlags { bits: 8 }
    }

    /// Accessible in user mode.
    pub fn U() -> (r: Self)
        ensures
            r.bits == 16,
    {
        PTEFlags { bits: 16 }
    }

    /// Global.
    pub fn G() -> (r: Self)
        ensures
            r.bits == 32,
    {
        PTEFlags { bits: 32 }
    }

    /// Accessed.
    pub fn A() -> (r: Self)
        ensures
            r.bits == 64,
    {
        PTEFlags { bits: 64 }
    }

    /// Dirty.
    pub fn D() -> (r: Self)
        ensures
            r.bits == 128,
    {
        PTEFlags { bits: 128 }
    }

    /// No flag.
    pub fn empty() -> (r: Self)
        ensures
            r.bits == 0,
    {
        PTEFlags { bits: 0 }
    }

    /// The flags whose bits are `bits`; every bit of a byte is a flag, so this never fails.
    pub fn from_bits(bits: u8) -> (r: Option<Self>)
        ensures
            r == Some(PTEFlags { bits }),
    {
        Some(PTEFlags { bits })
    }

    /// The flag bits.
    pub fn bits(&self) -> (r: u8)
        ensures
            r == self.bits,
    {
        self.bits
    }

    /// The flags of `self` and of `other`.
    pub fn union(self, other: Self) -> (r: Self)
        ensures
            r.bits == self.bits | other.bits,
    {
        PTEFlags { bits: self.bits | other.bits }
    }

    /// The flags common to `self` and `other`.
    pub fn intersection(self, other: Self) -> (r: Self)
        ensures
            r.bits == self.bits & other.bits,
    {
        PTEFlags { bits: self.bits & other.bits }
    }

    /// Whether no flag is set.
    pub fn is_empty(&self) -> (r: bool)
        ensures
            r == (self.bits == 0),
    {
        self.bits == 0
    }

    /// Whether every flag of `other` is set in `self`.
    pub fn contains(&self, other: Self) -> (r: bool)
        ensures
            r == (self.bits & other.bits == other.bits),
    {
        self.bits & other.bits == other.bits
    }
}

/// A page table entry: a physical page number above ten flag bits.
#[derive(Clone, Copy, PartialEq, Eq, Structural, Debug)]
pub struct PageTableEntry {
    /// bits of page table entry
    pub bits: u64,
}

/// Bits of the entry that `PageTableEntry::new` makes of `ppn` and `flags`.
pub open spec fn pte_bits(ppn: u64, flags: u8) -> u64 {
    (ppn << 10u64) | (flags as u64)
}

impl PageTableEntry {
    /// Physical page number held by the entry.
    pub open spec fn ppn_spec(self) -> u64 {
        (self.bits >> 10u64) & 0xfff_ffff_ffff
    }

    /// Flag bits of the entry.
    pub open spec fn flags_spec(self) -> u8 {
        (self.bits & 0xff) as u8
    }

    /// The V flag is set.
    pub open spec fn valid_spec(self) -> bool {
        self.bits & 1 != 0
    }

    /// The R flag is set.
    pub open spec fn readable_spec(self) -> bool {
        self.bits & 2 != 0
    }

    /// The W flag is set.
    pub open spec fn writable_spec(self) -> bool {
        self.bits & 4 != 0
    }

    /// The X flag is set.
    pub open spec fn executable_spec(self) -> bool {
        self.bits & 8 != 0
    }

    /// The entry for page `ppn` with `flags`.
    pub fn new(ppn: PhysPageNum, flags: PTEFlags) -> (r: Self)
        ensures
            r.bits == pte_bits(ppn.0, flags.bits),
            r.ppn_spec() == ppn.0 % 0x1000_0000_0000,
            r.flags_spec() == flags.bits,
            r.valid_spec() == (flags.bits & 1 != 0),
    {
        proof {
            lemma_pte_bits(ppn.0, flags.bits);
        }
        PageTableEntry { bits: (ppn.0 << 10u64) | (flags.bits as u64) }
    }

    /// The entry with no page and no flag.
    pub fn empty() -> (r: Self)
        ensures
            r.bits == 0,
            !r.valid_spec(),
    {
        proof {
            lemma_valid_bit();
        }
        PageTableEntry { bits: 0 }
    }

    /// Physical page number held by the entry.
    pub fn ppn(&self) -> (r: PhysPageNum)
        ensures
            r.0 == self.ppn_spec(),
            r.0 < 0x1000_0000_0000,
    {
        let b = self.bits;
        assert((b >> 10u64) & 0xfff_ffff_ffff < 0x1000_0000_0000) by (bit_vector);
        PhysPageNum((self.bits >> 10u64) & 0xfff_ffff_ffff)
    }

    /// Flags of the entry.
    pub fn flags(&self) -> (r: PTEFlags)
        ensures
            r.bits == self.flags_spec(),
    {
        PTEFlags { bits: (self.bits & 0xff) as u8 }
    }

    /// Whether the V flag is set.
    pub fn is_valid(&self) -> (r: bool)
        ensures
            r == self.valid_spec(),
    {
        let b = self.bits;
        assert(((b & 0xff) as u8) & 1 == 0 <==> b & 1 == 0) by (bit_vector);
        self.flags().intersection(PTEFlags::V()).bits != PTEFlags::empty().bits
    }

    /// Whether the R flag is set.
    pub fn readable(&self) -> (r: bool)
        ensures
            r == self.readable_spec(),
    {
        let b = self.bits;
        assert(((b & 0xff) as u8) & 2 == 0 <==> b & 2 == 0) by (bit_vector);
        self.flags().intersection(PTEFlags::R()).bits != PTEFlags::empty().bits
    }

    /// Whether the W flag is set.
    pub fn writable(&self) -> (r: bool)
        ensures
            r == self.writable_spec(),
    {
        let b = self.bits;
        assert(((b & 0xff) as u8) & 4 == 0 <==> b & 4 == 0) by (bit_vector);
        self.flags().intersection(PTEFlags::W()).bits != PTEFlags::empty().bits
    }

    /// Whether the X flag is set.
    pub fn executable(&self) -> (r: bool)
        ensures
            r == self.executable_spec(),
    {
        let b = self.bits;
        assert(((b & 0xff) as u8) & 8 == 0 <==> b & 8 == 0) by (bit_vector);
        self.flags().intersection(PTEFlags::X()).bits != PTEFlags::empty().bits
    }
}

/// What the entry made of `ppn` and `flags` holds.
pub proof fn lemma_pte_bits(ppn: u64, flags: u8)
    ensures
        (pte_bits(ppn, flags) >> 10u64) & 0xfff_ffff_ffff == ppn % 0x1000_0000_0000,
        (pte_bits(ppn, flags) & 0xff) as u8 == flags,
        (pte_bits(ppn, flags) & 1 != 0) == (flags & 1 != 0),
        (pte_bits(ppn, flags) & 2 != 0) == (flags & 2 != 0),
        (pte_bits(ppn, flags) & 4 != 0) == (flags & 4 != 0),
        (pte_bits(ppn, flags) & 8 != 0) == (flags & 8 != 0),
{
    assert((((ppn << 10u64) | (flags as u64)) >> 10u64) & 0xfff_ffff_ffff == ppn % 0x1000_0000_0000) by (bit_vector);
    assert((((ppn << 10u64) | (flags as u64)) & 0xff) as u8 == flags) by (bit_vector);
    assert((((ppn << 10u64) | (flags as u64)) & 1 != 0) == (flags & 1 != 0)) by (bit_vector);
    assert((((ppn << 10u64) | (flags as u64)) & 2 != 0) == (flags & 2 != 0)) by (bit_vector);
    assert((((ppn << 10u64) | (flags as u64)) & 4 != 0) == (flags & 4 != 0)) by (bit_vector);
    assert((((ppn << 10u64) | (flags as u64)) & 8 != 0) == (flags & 8 != 0)) by (bit_vector);
}

// ---------------------------------------------------------------------------------------------
// The mathematical model of a page table: a walk over the words of physical memory.

/// Entry `i` of the table in frame `p`.
pub open spec fn pte_at(phys: PhysMem, p: int, i: int) -> PageTableEntry {
    PageTableEntry { bits: phys.word(p, i) }
}

/// Index of a virtual page in the top-level table.
pub open spec fn idx0(v: u64) -> int {
    ((v >> 18u64) & 511) as int
}

/// Index of a virtual page in the middle-level table.
pub open spec fn idx1(v: u64) -> int {
    ((v >> 9u64) & 511) as int
}

/// Index of a virtual page in the last-level table.
pub open spec fn idx2(v: u64) -> int {
    (v & 511) as int
}

/// The page numbers that a table tells apart: the low 27 bits.
pub open spec fn vpn_key(v: u64) -> u64 {
    v & 0x7ff_ffff
}

/// Where the walk for virtual page `v` from the table in frame `root` finds the last-level
/// entry: its frame and index; `None` when an upper entry is not valid or a frame is not in memory.
pub open spec fn walk(phys: PhysMem, root: int, v: u64) -> Option<(int, int)> {
    if !phys.has_frame(root) {
        None
    } else {
        let e0 = pte_at(phys, root, idx0(v));
        if !e0.valid_spec() {
            None
        } else {
            let p1 = e0.ppn_spec() as int;
            if !phys.has_frame(p1) {
                None
            } else {
                let e1 = pte_at(phys, p1, idx1(v));
                if !e1.valid_spec() {
                    None
                } else {
                    let p2 = e1.ppn_spec() as int;
                    if !phys.has_frame(p2) {
                        None
                    } else {
                        Some((p2, idx2(v)))
                    }
                }
            }
        }
    }
}

/// The last-level entry for virtual page `v`, when the walk reaches one.
pub open spec fn translate_spec(phys: PhysMem, root: int, v: u64) -> Option<PageTableEntry> {
    match walk(phys, root, v) {
        Some((p, i)) => Some(pte_at(phys, p, i)),
        None => None,
    }
}

/// The walk for `v` reaches a valid last-level entry.
pub open spec fn is_mapped(phys: PhysMem, root: int, v: u64) -> bool {
    match translate_spec(phys, root, v) {
        Some(e) => e.valid_spec(),
        None => false,
    }
}

/// The mapping that the table in frame `root` defines: each virtual page number below 2^27 whose
/// walk reaches a valid entry, to that entry.
pub open spec fn mapping(phys: PhysMem, root: int) -> Map<u64, PageTableEntry> {
    Map::new(
        |k: u64| k < 0x800_0000 && is_mapped(phys, root, k),
        |k: u64| translate_spec(phys, root, k).unwrap(),
    )
}

/// The indexes of a page number and of its low 27 bits are the same, and they determine it.
pub proof fn lemma_key_indexes(v: u64)
    ensures
        idx0(vpn_key(v)) == idx0(v),
        idx1(vpn_key(v)) == idx1(v),
        idx2(vpn_key(v)) == idx2(v),
        vpn_key(v) < 0x800_0000,
        v < 0x800_0000 ==> vpn_key(v) == v,
        0 <= idx0(v) < 512,
        0 <= idx1(v) < 512,
        0 <= idx2(v) < 512,
{
    assert(((v & 0x7ff_ffff) >> 18u64) & 511 == (v >> 18u64) & 511) by (bit_vector);
    assert(((v & 0x7ff_ffff) >> 9u64) & 511 == (v >> 9u64) & 511) by (bit_vector);
    assert((v & 0x7ff_ffff) & 511 == v & 511) by (bit_vector);
    assert(v & 0x7ff_ffff < 0x800_0000) by (bit_vector);
    assert(v < 0x800_0000 ==> v & 0x7ff_ffff == v) by (bit_vector);
    assert((v >> 18u64) & 511 < 512 && (v >> 9u64) & 511 < 512 && v & 511 < 512) by (bit_vector);
}

/// Two page numbers below 2^27 with the same three indexes are equal.
pub proof fn lemma_indexes_determine(a: u64, b: u64)
    requires
        a < 0x800_0000,
        b < 0x800_0000,
        idx0(a) == idx0(b),
        idx1(a) == idx1(b),
        idx2(a) == idx2(b),
    ensures
        a == b,
{
    assert(a < 0x800_0000 && b < 0x800_0000 && (a >> 18u64) & 511 == (b >> 18u64) & 511 && (a
        >> 9u64) & 511 == (b >> 9u64) & 511 && a & 511 == b & 511 ==> a == b) by (bit_vector);
}

// ---------------------------------------------------------------------------------------------
// The shape of a table that the kernel owns: a tree of frames, each labelled with its level and
// with the indexes that lead to it from the root.

/// Entry `i0` of the root, when valid, leads to the level-1 frame labelled `(1, i0)`.
pub closed spec fn root_entry_ok(root: int, nodes: Map<int, (int, int)>, phys: PhysMem, i0: int) -> bool {
    let e = pte_at(phys, root, i0);
    e.valid_spec() ==> nodes.contains_key(e.ppn_spec() as int) && nodes[e.ppn_spec() as int] == (
    1int, i0)
}

/// Entry `i1` of level-1 frame `p`, when valid, leads to the level-2 frame labelled with the
/// position of that entry.
pub closed spec fn mid_entry_ok(nodes: Map<int, (int, int)>, phys: PhysMem, p: int, i1: int) -> bool {
    let e = pte_at(phys, p, i1);
    e.valid_spec() ==> nodes.contains_key(e.ppn_spec() as int) && nodes[e.ppn_spec() as int] == (
    2int, nodes[p].1 * 512 + i1)
}

/// The label of frame `p` names a path of valid entries from the root to `p`.
pub closed spec fn node_ok(root: int, nodes: Map<int, (int, int)>, phys: PhysMem, p: int) -> bool {
    let lvl = nodes[p].0;
    let pre = nodes[p].1;
    if lvl == 0 {
        p == root && pre == 0
    } else if lvl == 1 {
        &&& 0 <= pre < 512
        &&& pte_at(phys, root, pre).valid_spec()
        &&& pte_at(phys, root, pre).ppn_spec() == p
    } else {
        &&& lvl == 2
        &&& 0 <= pre < 512 * 512
        &&& pte_at(phys, root, pre / 512).valid_spec()
        &&& pte_at(phys, pte_at(phys, root, pre / 512).ppn_spec() as int, pre % 512).valid_spec()
        &&& pte_at(phys, pte_at(phys, root, pre / 512).ppn_spec() as int, pre % 512).ppn_spec() == p
    }
}

/// The frames `nodes` form a three-level tree rooted at `root` in `phys`.
pub closed spec fn tree_ok(root: int, nodes: Map<int, (int, int)>, phys: PhysMem) -> bool {
    &&& nodes.contains_key(root)
    &&& nodes[root] == (0int, 0int)
    &&& forall|p: int| #[trigger] nodes.contains_key(p) ==> phys.has_frame(p)
    &&& forall|i0: int| 0 <= i0 < 512 ==> #[trigger] root_entry_ok(root, nodes, phys, i0)
    &&& forall|p: int, i1: int|
        nodes.contains_key(p) && nodes[p].0 == 1 && 0 <= i1 < 512 ==> #[trigger] mid_entry_ok(
            nodes,
            phys,
            p,
            i1,
        )
    &&& forall|p: int| nodes.contains_key(p) ==> #[trigger] node_ok(root, nodes, phys, p)
}

/// In a tree, the walk for `k` passes the frames labelled by the indexes of `k`.
proof fn lemma_walk_labels(root: int, nodes: Map<int, (int, int)>, phys: PhysMem, k: u64)
    requires
        tree_ok(root, nodes, phys),
    ensures
        phys.has_frame(root),
        ({
            let e0 = pte_at(phys, root, idx0(k));
            e0.valid_spec() ==> {
                let p1 = e0.ppn_spec() as int;
                &&& nodes.contains_key(p1)
                &&& nodes[p1] == (1int, idx0(k))
                &&& p1 != root
                &&& phys.has_frame(p1)
                &&& {
                    let e1 = pte_at(phys, p1, idx1(k));
                    e1.valid_spec() ==> {
                        let p2 = e1.ppn_spec() as int;
                        &&& nodes.contains_key(p2)
                        &&& nodes[p2] == (2int, idx0(k) * 512 + idx1(k))
                        &&& phys.has_frame(p2)
                        &&& p2 != root
                        &&& walk(phys, root, k) == Some((p2, idx2(k)))
                    }
                }
                &&& !pte_at(phys, p1, idx1(k)).valid_spec() ==> walk(phys, root, k) is None
            }
        }),
        !pte_at(phys, root, idx0(k)).valid_spec() ==> walk(phys, root, k) is None,
{
    lemma_key_indexes(k);
    assert(root_entry_ok(root, nodes, phys, idx0(k)));
    let e0 = pte_at(phys, root, idx0(k));
    if e0.valid_spec() {
        let p1 = e0.ppn_spec() as int;
        assert(nodes.contains_key(p1));
        assert(mid_entry_ok(nodes, phys, p1, idx1(k)));
        let e1 = pte_at(phys, p1, idx1(k));
        if e1.valid_spec() {
            let p2 = e1.ppn_spec() as int;
            assert(nodes.contains_key(p2));
        }
    }
}

/// A tree and its mapping depend only on the words of its own frames.
proof fn lemma_tree_frame_local(root: int, nodes: Map<int, (int, int)>, phys1: PhysMem, phys2: PhysMem)
    requires
        tree_ok(root, nodes, phys1),
        phys1.first() == phys2.first(),
        phys1.bytes().len() == phys2.bytes().len(),
        forall|p: int, i: int|
            nodes.contains_key(p) && 0 <= i < 512 ==> #[trigger] phys2.word(p, i) == phys1.word(p, i),
    ensures
        tree_ok(root, nodes, phys2),
        mapping(phys2, root) == mapping(phys1, root),
        forall|k: u64| #[trigger] translate_spec(phys2, root, k) == translate_spec(phys1, root, k),
{
    assert forall|i0: int| 0 <= i0 < 512 implies #[trigger] root_entry_ok(root, nodes, phys2, i0) by {
        assert(root_entry_ok(root, nodes, phys1, i0));
        assert(phys2.word(root, i0) == phys1.word(root, i0));
    }
    assert forall|p: int, i1: int|
        nodes.contains_key(p) && nodes[p].0 == 1 && 0 <= i1 < 512 implies #[trigger] mid_entry_ok(
        nodes,
        phys2,
        p,
        i1,
    ) by {
        assert(mid_entry_ok(nodes, phys1, p, i1));
        assert(phys2.word(p, i1) == phys1.word(p, i1));
    }
    assert forall|p: int| nodes.contains_key(p) implies #[trigger] node_ok(root, nodes, phys2, p) by {
        assert(node_ok(root, nodes, phys1, p));
        let pre = nodes[p].1;
        if nodes[p].0 == 1 {
            assert(phys2.word(root, pre) == phys1.word(root, pre));
        } else if nodes[p].0 == 2 {
            assert(phys2.word(root, pre / 512) == phys1.word(root, pre / 512));
            let f1 = pte_at(phys1, root, pre / 512).ppn_spec() as int;
            assert(root_entry_ok(root, nodes, phys1, pre / 512));
            assert(phys2.word(f1, pre % 512) == phys1.word(f1, pre % 512));
        }
    }
    assert forall|k: u64| #[trigger] translate_spec(phys2, root, k) == translate_spec(phys1, root, k) by {
        lemma_key_indexes(k);
        lemma_walk_labels(root, nodes, phys1, k);
        assert(phys2.word(root, idx0(k)) == phys1.word(root, idx0(k)));
        let e0 = pte_at(phys1, root, idx0(k));
        if e0.valid_spec() {
            let p1 = e0.ppn_spec() as int;
            assert(phys2.word(p1, idx1(k)) == phys1.word(p1, idx1(k)));
            let e1 = pte_at(phys1, p1, idx1(k));
            if e1.valid_spec() {
                let p2 = e1.ppn_spec() as int;
                assert(phys2.word(p2, idx2(k)) == phys1.word(p2, idx2(k)));
            }
        }
    }
    assert(mapping(phys2, root) =~= mapping(phys1, root)) by {
        assert forall|k: u64| #[trigger] is_mapped(phys2, root, k) == is_mapped(phys1, root, k) by {
            assert(translate_spec(phys2, root, k) == translate_spec(phys1, root, k));
        }
    }
}

/// Hanging a fresh zeroed frame `f` under the invalid root entry `i0` keeps the tree and its mapping.
proof fn lemma_add_level1(
    root: int,
    nodes: Map<int, (int, int)>,
    phys0: PhysMem,
    phys1: PhysMem,
    i0: int,
    f: int,
)
    requires
        tree_ok(root, nodes, phys0),
        0 <= i0 < 512,
        !pte_at(phys0, root, i0).valid_spec(),
        !nodes.contains_key(f),
        phys0.has_frame(f),
        0 <= f < 0x1000_0000_0000,
        phys1.first() == phys0.first(),
        phys1.bytes().len() == phys0.bytes().len(),
        forall|p: int, i: int|
            nodes.contains_key(p) && 0 <= i < 512 && (p != root || i != i0) ==> #[trigger] phys1.word(p, i)
                == phys0.word(p, i),
        phys1.word(root, i0) == pte_bits(f as u64, 1),
        forall|i: int| 0 <= i < 512 ==> #[trigger] phys1.word(f, i) == 0,
    ensures
        tree_ok(root, nodes.insert(f, (1int, i0)), phys1),
        mapping(phys1, root) == mapping(phys0, root),
{
    let nodes1 = nodes.insert(f, (1int, i0));
    lemma_pte_bits(f as u64, 1);
    lemma_valid_bit();
    assert(pte_at(phys1, root, i0).valid_spec());
    assert(pte_at(phys1, root, i0).ppn_spec() == f);
    assert forall|p: int| #[trigger] nodes1.contains_key(p) implies phys1.has_frame(p) by {
        if p != f {
            assert(nodes.contains_key(p));
        }
    }
    assert forall|j0: int| 0 <= j0 < 512 implies #[trigger] root_entry_ok(root, nodes1, phys1, j0) by {
        assert(root_entry_ok(root, nodes, phys0, j0));
    }
    assert forall|p: int, i1: int|
        nodes1.contains_key(p) && nodes1[p].0 == 1 && 0 <= i1 < 512 implies #[trigger] mid_entry_ok(
        nodes1,
        phys1,
        p,
        i1,
    ) by {
        if p != f {
            assert(mid_entry_ok(nodes, phys0, p, i1));
            assert(node_ok(root, nodes, phys0, p));
            assert(phys1.word(p, i1) == phys0.word(p, i1));
        } else {
            assert(phys1.word(f, i1) == 0);
        }
    }
    assert forall|p: int| nodes1.contains_key(p) implies #[trigger] node_ok(root, nodes1, phys1, p) by {
        if p != f {
            assert(node_ok(root, nodes, phys0, p));
            let pre = nodes[p].1;
            if nodes[p].0 == 1 {
                assert(phys1.word(root, pre) == phys0.word(root, pre));
            } else if nodes[p].0 == 2 {
                assert(phys1.word(root, pre / 512) == phys0.word(root, pre / 512));
                assert(root_entry_ok(root, nodes, phys0, pre / 512));
                let f1 = pte_at(phys0, root, pre / 512).ppn_spec() as int;
                assert(node_ok(root, nodes, phys0, f1));
                assert(phys1.word(f1, pre % 512) == phys0.word(f1, pre % 512));
            }
        }
    }
    assert(tree_ok(root, nodes1, phys1));
    assert forall|k: u64| #[trigger] is_mapped(phys1, root, k) == is_mapped(phys0, root, k) && (
    is_mapped(phys0, root, k) ==> translate_spec(phys1, root, k) == translate_spec(phys0, root, k)) by {
        lemma_key_indexes(k);
        lemma_walk_labels(root, nodes, phys0, k);
        lemma_walk_labels(root, nodes1, phys1, k);
        if idx0(k) == i0 {
            assert(phys1.word(f, idx1(k)) == 0);
        } else {
            assert(phys1.word(root, idx0(k)) == phys0.word(root, idx0(k)));
            let e0 = pte_at(phys0, root, idx0(k));
            if e0.valid_spec() {
                let p1 = e0.ppn_spec() as int;
                assert(phys1.word(p1, idx1(k)) == phys0.word(p1, idx1(k)));
                let e1 = pte_at(phys0, p1, idx1(k));
                if e1.valid_spec() {
                    let p2 = e1.ppn_spec() as int;
                    assert(phys1.word(p2, idx2(k)) == phys0.word(p2, idx2(k)));
                }
            }
        }
    }
    assert(mapping(phys1, root) =~= mapping(phys0, root));
}

/// Hanging a fresh zeroed frame `f` under the invalid entry `i1` of level-1 frame `f1` keeps the
/// tree and its mapping.
proof fn lemma_add_level2(
    root: int,
    nodes: Map<int, (int, int)>,
    phys0: PhysMem,
    phys1: PhysMem,
    f1: int,
    i1: int,
    f: int,
)
    requires
        tree_ok(root, nodes, phys0),
        nodes.contains_key(f1),
        nodes[f1].0 == 1,
        0 <= i1 < 512,
        !pte_at(phys0, f1, i1).valid_spec(),
        !nodes.contains_key(f),
        phys0.has_frame(f),
        0 <= f < 0x1000_0000_0000,
        phys1.first() == phys0.first(),
        phys1.bytes().len() == phys0.bytes().len(),
        forall|p: int, i: int|
            nodes.contains_key(p) && 0 <= i < 512 && (p != f1 || i != i1) ==> #[trigger] phys1.word(p, i)
                == phys0.word(p, i),
        phys1.word(f1, i1) == pte_bits(f as u64, 1),
        forall|i: int| 0 <= i < 512 ==> #[trigger] phys1.word(f, i) == 0,
    ensures
        tree_ok(root, nodes.insert(f, (2int, nodes[f1].1 * 512 + i1)), phys1),
        mapping(phys1, root) == mapping(phys0, root),
{
    let pre = nodes[f1].1 * 512 + i1;
    let nodes1 = nodes.insert(f, (2int, pre));
    lemma_pte_bits(f as u64, 1);
    lemma_valid_bit();
    assert(node_ok(root, nodes, phys0, f1));
    assert(f1 != root);
    let i0 = nodes[f1].1;
    assert(0 <= i0 < 512);
    assert(pre / 512 == i0 && pre % 512 == i1);
    assert forall|p: int| #[trigger] nodes1.contains_key(p) implies phys1.has_frame(p) by {
        if p != f {
            assert(nodes.contains_key(p));
        }
    }
    assert forall|j0: int| 0 <= j0 < 512 implies #[trigger] root_entry_ok(root, nodes1, phys1, j0) by {
        assert(root_entry_ok(root, nodes, phys0, j0));
        assert(phys1.word(root, j0) == phys0.word(root, j0));
    }
    assert forall|p: int, j1: int|
        nodes1.contains_key(p) && nodes1[p].0 == 1 && 0 <= j1 < 512 implies #[trigger] mid_entry_ok(
        nodes1,
        phys1,
        p,
        j1,
    ) by {
        assert(p != f);
        assert(mid_entry_ok(nodes, phys0, p, j1));
        if p != f1 || j1 != i1 {
            assert(phys1.word(p, j1) == phys0.word(p, j1));
        }
    }
    assert forall|p: int| nodes1.contains_key(p) implies #[trigger] node_ok(root, nodes1, phys1, p) by {
        assert(phys1.word(root, i0) == phys0.word(root, i0));
        if p != f {
            assert(node_ok(root, nodes, phys0, p));
            let q = nodes[p].1;
            if nodes[p].0 == 1 {
                assert(phys1.word(root, q) == phys0.word(root, q));
            } else if nodes[p].0 == 2 {
                assert(phys1.word(root, q / 512) == phys0.word(root, q / 512));
                assert(root_entry_ok(root, nodes, phys0, q / 512));
                let g1 = pte_at(phys0, root, q / 512).ppn_spec() as int;
                assert(node_ok(root, nodes, phys0, g1));
                if g1 == f1 && q % 512 == i1 {
                    assert(false);
                }
                assert(phys1.word(g1, q % 512) == phys0.word(g1, q % 512));
            }
        } else {
            assert(root_entry_ok(root, nodes, phys0, i0));
        }
    }
    assert(tree_ok(root, nodes1, phys1));
    assert forall|k: u64| #[trigger] is_mapped(phys1, root, k) == is_mapped(phys0, root, k) && (
    is_mapped(phys0, root, k) ==> translate_spec(phys1, root, k) == translate_spec(phys0, root, k)) by {
        lemma_key_indexes(k);
        lemma_walk_labels(root, nodes, phys0, k);
        lemma_walk_labels(root, nodes1, phys1, k);
        assert(phys1.word(root, idx0(k)) == phys0.word(root, idx0(k)));
        let e0 = pte_at(phys0, root, idx0(k));
        if e0.valid_spec() {
            let p1 = e0.ppn_spec() as int;
            if p1 == f1 && idx1(k) == i1 {
                assert(phys1.word(f, idx2(k)) == 0);
            } else {
                assert(phys1.word(p1, idx1(k)) == phys0.word(p1, idx1(k)));
                let e1 = pte_at(phys0, p1, idx1(k));
                if e1.valid_spec() {
                    let p2 = e1.ppn_spec() as int;
                    assert(phys1.word(p2, idx2(k)) == phys0.word(p2, idx2(k)));
                }
            }
        }
    }
    assert(mapping(phys1, root) =~= mapping(phys0, root));
}

/// Writing entry `i2` of level-2 frame `f2` changes the mapping at exactly one page number.
proof fn lemma_set_leaf(
    root: int,
    nodes: Map<int, (int, int)>,
    phys0: PhysMem,
    phys1: PhysMem,
    f2: int,
    i2: int,
    k: u64,
)
    requires
        tree_ok(root, nodes, phys0),
        nodes.contains_key(f2),
        nodes[f2].0 == 2,
        k < 0x800_0000,
        idx0(k) * 512 + idx1(k) == nodes[f2].1,
        i2 == idx2(k),
        phys1.first() == phys0.first(),
        phys1.bytes().len() == phys0.bytes().len(),
        forall|p: int, i: int|
            nodes.contains_key(p) && 0 <= i < 512 && (p != f2 || i != i2) ==> #[trigger] phys1.word(p, i)
                == phys0.word(p, i),
    ensures
        tree_ok(root, nodes, phys1),
        walk(phys0, root, k) == Some((f2, i2)),
        walk(phys1, root, k) == Some((f2, i2)),
        pte_at(phys1, f2, i2).valid_spec() ==> mapping(phys1, root) == mapping(phys0, root).insert(
            k,
            pte_at(phys1, f2, i2),
        ),
        !pte_at(phys1, f2, i2).valid_spec() ==> mapping(phys1, root) == mapping(phys0, root).remove(k),
{
    lemma_key_indexes(k);
    assert(node_ok(root, nodes, phys0, f2));
    let pre = nodes[f2].1;
    assert(pre / 512 == idx0(k) && pre % 512 == idx1(k));
    assert(root_entry_ok(root, nodes, phys0, idx0(k)));
    let f1 = pte_at(phys0, root, idx0(k)).ppn_spec() as int;
    assert(nodes[f1].0 == 1);
    assert(f2 != root && f2 != f1);
    assert forall|j0: int| 0 <= j0 < 512 implies #[trigger] root_entry_ok(root, nodes, phys1, j0) by {
        assert(root_entry_ok(root, nodes, phys0, j0));
        assert(phys1.word(root, j0) == phys0.word(root, j0));
    }
    assert forall|p: int, j1: int|
        nodes.contains_key(p) && nodes[p].0 == 1 && 0 <= j1 < 512 implies #[trigger] mid_entry_ok(
        nodes,
        phys1,
        p,
        j1,
    ) by {
        assert(mid_entry_ok(nodes, phys0, p, j1));
        assert(phys1.word(p, j1) == phys0.word(p, j1));
    }
    assert forall|p: int| nodes.contains_key(p) implies #[trigger] node_ok(root, nodes, phys1, p) by {
        assert(node_ok(root, nodes, phys0, p));
        let q = nodes[p].1;
        if nodes[p].0 == 1 {
            assert(phys1.word(root, q) == phys0.word(root, q));
        } else if nodes[p].0 == 2 {
            assert(phys1.word(root, q / 512) == phys0.word(root, q / 512));
            assert(root_entry_ok(root, nodes, phys0, q / 512));
            let g1 = pte_at(phys0, root, q / 512).ppn_spec() as int;
            assert(phys1.word(g1, q % 512) == phys0.word(g1, q % 512));
        }
    }
    assert(tree_ok(root, nodes, phys1));
    lemma_walk_labels(root, nodes, phys0, k);
    lemma_walk_labels(root, nodes, phys1, k);
    assert(mid_entry_ok(nodes, phys0, f1, idx1(k)));
    assert(phys1.word(root, idx0(k)) == phys0.word(root, idx0(k)));
    assert(phys1.word(f1, idx1(k)) == phys0.word(f1, idx1(k)));
    assert forall|j: u64| j != k && j < 0x800_0000 implies #[trigger] is_mapped(phys1, root, j) == is_mapped(phys0, root, j) && (
    is_mapped(phys0, root, j) ==> translate_spec(phys1, root, j) == translate_spec(phys0, root, j)) by {
        lemma_walk_labels(root, nodes, phys0, j);
        lemma_walk_labels(root, nodes, phys1, j);
        lemma_key_indexes(j);
        assert(phys1.word(root, idx0(j)) == phys0.word(root, idx0(j)));
        let e0 = pte_at(phys0, root, idx0(j));
        if e0.valid_spec() {
            let p1 = e0.ppn_spec() as int;
            assert(phys1.word(p1, idx1(j)) == phys0.word(p1, idx1(j)));
            let e1 = pte_at(phys0, p1, idx1(j));
            if e1.valid_spec() {
                let p2 = e1.ppn_spec() as int;
                if p2 == f2 && idx2(j) == i2 {
                    assert(idx0(j) * 512 + idx1(j) == pre);
                    assert(idx0(j) == idx0(k) && idx1(j) == idx1(k));
                    lemma_indexes_determine(j, k);
                }
                assert(p2 != f2 || idx2(j) != i2);
            }
        }
    }
    if pte_at(phys1, f2, i2).valid_spec() {
        assert(mapping(phys1, root) =~= mapping(phys0, root).insert(k, pte_at(phys1, f2, i2)));
    } else {
        assert(mapping(phys1, root) =~= mapping(phys0, root).remove(k));
    }
}

// ---------------------------------------------------------------------------------------------

/// A three-level page table: the root frame and every frame of the table that it owns.
pub struct PageTable {
    root_ppn: PhysPageNum,
    frames: Vec<FrameTracker>,
    nodes: Ghost<Map<int, (int, int)>>,
}

impl PageTable {
    /// Frame of the top-level table.
    pub closed spec fn root(&self) -> int {
        self.root_ppn.0 as int
    }

    /// The frames that the table owns.
    pub closed spec fn frame_set(&self) -> Set<int> {
        self.nodes@.dom()
    }

    /// The owned frames form a tree in `mem`, are all handed out by the allocator, and are
    /// listed once each, the root first.
    pub closed spec fn wf(&self, mem: Memory) -> bool {
        &&& tree_ok(self.root(), self.nodes@, mem.phys)
        &&& self.frames@.len() > 0
        &&& self.frames@[0].ppn.0 == self.root()
        &&& forall|i: int, j: int|
            0 <= i < j < self.frames@.len() ==> #[trigger] self.frames@[i].ppn != #[trigger] self.frames@[j].ppn
        &&& forall|i: int| 0 <= i < self.frames@.len() ==> #[trigger] self.nodes@.contains_key(self.frames@[i].ppn.0 as int)
        &&& forall|p: int| #[trigger] self.nodes@.contains_key(p) ==> exists|i: int| 0 <= i < self.frames@.len() && self.frames@[i].ppn.0 == p
        &&& forall|p: int| #[trigger] self.nodes@.contains_key(p) ==> mem.allocated(p)
    }

    /// The mapping from virtual page numbers (below 2^27) to valid last-level entries.
    pub open spec fn view_in(&self, phys: PhysMem) -> Map<u64, PageTableEntry> {
        mapping(phys, self.root())
    }

    /// The table's frames and the allocator's handed-out frames after an operation relate to those
    /// before it as when the operation only took fresh frames for the table and wrote only in the
    /// table's own frames.
    pub open spec fn grew_from(&self, old_pt: &PageTable, old_mem: Memory, mem: Memory) -> bool {
        &&& self.root() == old_pt.root()
        &&& old_pt.frame_set().subset_of(self.frame_set())
        &&& forall|q: int|
            #[trigger] self.frame_set().contains(q) && !old_pt.frame_set().contains(q) ==> !old_mem.allocated(q)
        &&& forall|q: int| #[trigger] mem.allocated(q) == (old_mem.allocated(q) || self.frame_set().contains(q))
        &&& old_mem.phys.same_outside(&mem.phys, self.frame_set())
        &&& mem.allocator.end() == old_mem.allocator.end()
    }

    /// A table with an empty root frame; `None` when no frame is free.
    pub fn new(mem: &mut Memory) -> (r: Option<PageTable>)
        requires
            old(mem).wf(),
        ensures
            final(mem).wf(),
            final(mem).allocator.end() == old(mem).allocator.end(),
            r is None <==> old(mem).allocator.free_count() == 0,
            r is None ==> final(mem).phys == old(mem).phys && forall|q: int| #[trigger] final(mem).allocated(q) == old(mem).allocated(q),
            r is None ==> final(mem).allocator.free_count() == 0,
            r is Some ==> final(mem).allocator.free_count() == old(mem).allocator.free_count() - 1,
            r matches Some(pt) ==> {
                &&& pt.wf(*final(mem))
                &&& pt.view_in(final(mem).phys) == Map::<u64, PageTableEntry>::empty()
                &&& pt.frame_set() == set![pt.root()]
                &&& !old(mem).allocated(pt.root())
                &&& forall|q: int| #[trigger] final(mem).allocated(q) == (old(mem).allocated(q) || q == pt.root())
                &&& old(mem).phys.same_outside(&final(mem).phys, set![pt.root()])
            },
    {
        match mem.frame_alloc() {
            None => None,
            Some(frame) => {
                let ghost root = frame.ppn.0 as int;
                let ghost nodes = map![root => (0int, 0int)];
                let pt = PageTable { root_ppn: frame.ppn, frames: vec![frame], nodes: Ghost(nodes) };
                proof {
                    lemma_valid_bit();
                    lemma_compose_zero_words(mem.phys, root);
                    assert forall|i0: int| 0 <= i0 < 512 implies #[trigger] root_entry_ok(root, nodes, mem.phys, i0) by {
                        assert(mem.phys.word(root, i0) == 0);
                    }
                    assert forall|p: int| nodes.contains_key(p) implies #[trigger] node_ok(root, nodes, mem.phys, p) by {}
                    assert(tree_ok(root, nodes, mem.phys));
                    assert forall|p: int| #[trigger] nodes.contains_key(p) implies exists|i: int| 0 <= i < pt.frames@.len() && pt.frames@[i].ppn.0 == p by {
                        assert(pt.frames@[0].ppn.0 == p);
                    }
                    assert forall|k: u64| !is_mapped(mem.phys, root, k) by {
                        lemma_key_indexes(k);
                        assert(mem.phys.word(root, idx0(k)) == 0);
                    }
                    assert(pt.view_in(mem.phys) =~= Map::<u64, PageTableEntry>::empty());
                    assert(pt.frame_set() =~= set![pt.root()]);
                }
                Some(pt)
            },
        }
    }

    /// A table read from the register value `satp`: its root is the low 44 bits. The table owns
    /// no frame; it serves to translate addresses of another address space.
    pub fn from_token(satp: u64) -> (r: PageTable)
        ensures
            r.root() == satp as int % 0x1000_0000_0000,
            r.frame_set() == Set::<int>::empty(),
    {
        let root_ppn = PhysPageNum::from_u64(satp & 0xfff_ffff_ffff);
        assert((satp & 0xfff_ffff_ffff) % 0x1000_0000_0000 == satp % 0x1000_0000_0000) by (bit_vector);
        PageTable { root_ppn, frames: Vec::new(), nodes: Ghost(Map::empty()) }
    }

    /// The value of the `satp` register that selects this table in Sv39 mode.
    pub fn token(&self) -> (r: u64)
        ensures
            r == 0x8000_0000_0000_0000u64 | (self.root() as u64),
    {
        assert(8u64 << 60u64 == 0x8000_0000_0000_0000u64) by (bit_vector);
        (8u64 << 60u64) | self.root_ppn.0
    }

    /// Where the walk for `vpn` finds its last-level entry: frame and index.
    fn find_pte(&self, phys: &PhysMem, vpn: VirtPageNum) -> (r: Option<(PhysPageNum, u64)>)
        requires
            phys.wf(),
        ensures
            match r {
                Some((p, i)) => walk(*phys, self.root(), vpn.0) == Some((p.0 as int, i as int)) && i < 512,
                None => walk(*phys, self.root(), vpn.0) is None,
            },
    {
        let idxs = vpn.indexes();
        let mut ppn = self.root_ppn;
        if !phys.contains_frame(ppn) {
            return None;
        }
        let e0 = PageTableEntry { bits: phys.read_word(ppn, idxs[0]) };
        if !e0.is_valid() {
            return None;
        }
        ppn = e0.ppn();
        if !phys.contains_frame(ppn) {
            return None;
        }
        let e1 = PageTableEntry { bits: phys.read_word(ppn, idxs[1]) };
        if !e1.is_valid() {
            return None;
        }
        ppn = e1.ppn();
        if !phys.contains_frame(ppn) {
            return None;
        }
        Some((ppn, idxs[2]))
    }

    /// The last-level entry for `vpn`, when the walk reaches one.
    pub fn translate(&self, phys: &PhysMem, vpn: VirtPageNum) -> (r: Option<PageTableEntry>)
        requires
            phys.wf(),
        ensures
            r == translate_spec(*phys, self.root(), vpn.0),
    {
        match self.find_pte(phys, vpn) {
            Some((p, i)) => Some(PageTableEntry { bits: phys.read_word(p, i) }),
            None => None,
        }
    }

    /// The physical address that `va` translates to, when the walk reaches a last-level entry:
    /// the entry's page and the offset of `va` in its page.
    pub fn translate_va(&self, phys: &PhysMem, va: VirtAddr) -> (r: Option<PhysAddr>)
        requires
            phys.wf(),
        ensures
            match translate_spec(*phys, self.root(), va.0 / PAGE_SIZE) {
                Some(e) => r == Some(PhysAddr((e.ppn_spec() * PAGE_SIZE + va.0 % PAGE_SIZE) as u64)),
                None => r is None,
            },
    {
        match self.translate(phys, va.floor()) {
            Some(pte) => {
                let aligned_pa = pte.ppn().to_pa();
                let offset = va.page_offset();
                Some(PhysAddr::from_u64(aligned_pa.0 + offset))
            },
            None => None,
        }
    }
}

/// A zeroed frame holds only zero words.
proof fn lemma_compose_zero_words(phys: PhysMem, p: int)
    requires
        forall|j: int| 0 <= j < 512 ==> #[trigger] phys.word(p, j) == 0,
    ensures
        forall|j: int| 0 <= j < 512 ==> #[trigger] pte_at(phys, p, j).bits == 0,
{
}

impl PageTable {
    /// A table has grown from itself.
    proof fn lemma_grew_refl(&self, mem: Memory)
        requires
            self.wf(mem),
        ensures
            self.grew_from(self, mem, mem),
    {
        lemma_same_outside_refl(&mem.phys, self.frame_set());
    }

    /// Growth composes.
    proof fn lemma_grew_trans(&self, mid: &PageTable, first: &PageTable, m0: Memory, m1: Memory, m2: Memory)
        requires
            mid.grew_from(first, m0, m1),
            self.grew_from(mid, m1, m2),
        ensures
            self.grew_from(first, m0, m2),
    {
        lemma_same_outside_trans(&m0.phys, &m1.phys, &m2.phys, mid.frame_set(), self.frame_set(), self.frame_set());
        assert forall|q: int| #[trigger] self.frame_set().contains(q) && !first.frame_set().contains(q) implies !m0.allocated(q) by {
            if mid.frame_set().contains(q) {
            } else {
                assert(!m1.allocated(q));
            }
        }
        assert forall|q: int| #[trigger] m2.allocated(q) == (m0.allocated(q) || self.frame_set().contains(q)) by {
            assert(m2.allocated(q) == (m1.allocated(q) || self.frame_set().contains(q)));
            assert(m1.allocated(q) == (m0.allocated(q) || mid.frame_set().contains(q)));
        }
    }

    /// A table that has grown still has when memory only failed to hand out a frame.
    proof fn lemma_grew_keep(&self, first: &PageTable, m0: Memory, m1: Memory, m2: Memory)
        requires
            self.grew_from(first, m0, m1),
            m2.phys == m1.phys,
            m2.allocator.end() == m1.allocator.end(),
            forall|q: int| #[trigger] m2.allocated(q) == m1.allocated(q),
        ensures
            self.grew_from(first, m0, m2),
    {
    }

    /// One frame taken from the allocator and attached to the table is growth.
    proof fn lemma_grew_one(&self, before: &PageTable, m0: Memory, m1: Memory, m2: Memory, f: int, parent: int)
        requires
            self.root() == before.root(),
            self.nodes@ == before.nodes@.insert(f, self.nodes@[f]),
            before.nodes@.contains_key(parent),
            !m0.allocated(f),
            forall|q: int| #[trigger] m1.allocated(q) == (m0.allocated(q) || q == f),
            m1.allocator.end() == m0.allocator.end(),
            m0.phys.same_outside(&m1.phys, set![f]),
            m2.allocator == m1.allocator,
            m1.phys.same_outside(&m2.phys, set![parent]),
            forall|p: int| #[trigger] before.nodes@.contains_key(p) ==> m0.allocated(p),
        ensures
            self.grew_from(before, m0, m2),
    {
        assert(before.frame_set().subset_of(self.frame_set()));
        assert(set![f].subset_of(self.frame_set()));
        assert(set![parent].subset_of(self.frame_set()));
        lemma_same_outside_trans(&m0.phys, &m1.phys, &m2.phys, set![f], set![parent], self.frame_set());
        assert forall|q: int| #[trigger] m2.allocated(q) == (m0.allocated(q) || self.frame_set().contains(q)) by {
            assert(m2.allocated(q) == m1.allocated(q));
            if self.frame_set().contains(q) && q != f {
                assert(before.nodes@.contains_key(q));
            }
        }
    }

    /// The table stays well formed, with the same mapping, when a fresh frame is taken from the
    /// allocator.
    proof fn lemma_keep_wf_after_alloc(&self, m0: Memory, m1: Memory, f: int)
        requires
            self.wf(m0),
            !self.nodes@.contains_key(f),
            forall|q: int| #[trigger] m1.allocated(q) == (m0.allocated(q) || q == f),
            m0.phys.same_outside(&m1.phys, set![f]),
        ensures
            self.wf(m1),
            self.view_in(m1.phys) == self.view_in(m0.phys),
            forall|p: int, i: int| self.nodes@.contains_key(p) && 0 <= i < 512 ==> #[trigger] m1.phys.word(p, i)
                == m0.phys.word(p, i),
    {
        assert forall|p: int, i: int| self.nodes@.contains_key(p) && 0 <= i < 512 implies #[trigger] m1.phys.word(p, i)
            == m0.phys.word(p, i) by {
            lemma_same_outside_word(&m0.phys, &m1.phys, set![f], p, i);
        }
        lemma_tree_frame_local(self.root(), self.nodes@, m0.phys, m1.phys);
    }

    /// Fresh frame `frame` is not a frame of the table and lies in memory below 2^44.
    proof fn lemma_fresh_frame(&self, mem0: Memory, mem1: Memory, f: int)
        requires
            self.wf(mem0),
            mem0.wf(),
            !mem0.allocated(f),
            mem1.phys.has_frame(f),
            mem1.phys.wf(),
            mem1.phys.first() == mem0.phys.first(),
            mem1.phys.bytes().len() == mem0.phys.bytes().len(),
        ensures
            !self.nodes@.contains_key(f),
            0 <= f < 0x1000_0000_0000,
            mem0.phys.has_frame(f),
    {
    }

    /// Takes the fresh frame `frame` into the table as a child of entry `i` of frame `parent`,
    /// writing that entry; `parent` must be the root (`level == 1`) or a level-1 frame.
    fn attach(&mut self, mem: &mut Memory, parent: PhysPageNum, i: u64, frame: FrameTracker, level: Ghost<int>)
        requires
            old(self).wf(*old(mem)),
            old(mem).wf(),
            old(self).nodes@.contains_key(parent.0 as int),
            level@ == 1 ==> parent.0 == old(self).root(),
            level@ == 2 ==> old(self).nodes@[parent.0 as int].0 == 1,
            level@ == 1 || level@ == 2,
            i < 512,
            !pte_at(old(mem).phys, parent.0 as int, i as int).valid_spec(),
            old(mem).allocated(frame.ppn.0 as int),
            !old(self).nodes@.contains_key(frame.ppn.0 as int),
            old(mem).phys.has_frame(frame.ppn.0 as int),
            frame.ppn.0 < 0x1000_0000_0000,
            forall|j: int| 0 <= j < 512 ==> #[trigger] old(mem).phys.word(frame.ppn.0 as int, j) == 0,
        ensures
            final(self).wf(*final(mem)),
            final(mem).wf(),
            final(self).root() == old(self).root(),
            final(self).nodes@ == old(self).nodes@.insert(
                frame.ppn.0 as int,
                if level@ == 1 { (1int, i as int) } else { (2int, old(self).nodes@[parent.0 as int].1 * 512 + i) },
            ),
            final(self).view_in(final(mem).phys) == old(self).view_in(old(mem).phys),
            final(mem).allocator == old(mem).allocator,
            old(mem).phys.same_outside(&final(mem).phys, set![parent.0 as int]),
            pte_at(final(mem).phys, parent.0 as int, i as int).valid_spec(),
            pte_at(final(mem).phys, parent.0 as int, i as int).ppn_spec() == frame.ppn.0,
    {
        let ghost phys0 = mem.phys;
        let ghost nodes0 = self.nodes@;
        let ghost root = self.root();
        let e = PageTableEntry::new(frame.ppn, PTEFlags::V());
        mem.phys.write_word(parent, i, e.bits);
        proof {
            let f = frame.ppn.0 as int;
            assert(mem.phys.word(f, 0) == 0);
            assert(f != parent.0);
            assert forall|j: int| 0 <= j < 512 implies #[trigger] mem.phys.word(f, j) == 0 by {
                assert(phys0.word(f, j) == 0);
            }
            assert forall|p: int, j: int|
                nodes0.contains_key(p) && 0 <= j < 512 && (p != parent.0 || j != i) implies #[trigger] mem.phys.word(p, j)
                    == phys0.word(p, j) by {
                assert(phys0.has_frame(p));
            }
            lemma_pte_bits(f as u64, 1);
            lemma_valid_bit();
            assert((f as u64) % 0x1000_0000_0000 == f as u64);
            if level@ == 1 {
                lemma_add_level1(root, nodes0, phys0, mem.phys, i as int, f);
                self.nodes = Ghost(nodes0.insert(f, (1int, i as int)));
            } else {
                lemma_add_level2(root, nodes0, phys0, mem.phys, parent.0 as int, i as int, f);
                self.nodes = Ghost(nodes0.insert(f, (2int, nodes0[parent.0 as int].1 * 512 + i)));
            }
            assert forall|q: int, off: int|
                #![trigger mem.phys.byte(q, off)]
                phys0.has_frame(q) && 0 <= off < PAGE_SIZE && !set![parent.0 as int].contains(q) implies mem.phys.byte(q, off)
                    == phys0.byte(q, off) by {}
        }
        proof {
            Memory::lemma_wf_bytes_changed(*old(mem), *mem);
        }
        let ghost frames0 = self.frames@;
        self.frames.push(frame);
        proof {
            let nodes1 = self.nodes@;
            assert forall|a: int, b: int|
                0 <= a < b < self.frames@.len() implies #[trigger] self.frames@[a].ppn != #[trigger] self.frames@[b].ppn by {
                if b == frames0.len() {
                    assert(nodes0.contains_key(frames0[a].ppn.0 as int));
                }
            }
            assert forall|p: int| #[trigger] nodes1.contains_key(p) implies exists|k: int| 0 <= k < self.frames@.len() && self.frames@[k].ppn.0 == p by {
                if p == frame.ppn.0 {
                    assert(self.frames@[frames0.len() as int].ppn.0 == p);
                } else {
                    assert(nodes0.contains_key(p));
                    let k = choose|k: int| 0 <= k < frames0.len() && frames0[k].ppn.0 == p;
                    assert(self.frames@[k].ppn.0 == p);
                }
            }
            assert forall|k: int| 0 <= k < self.frames@.len() implies #[trigger] nodes1.contains_key(self.frames@[k].ppn.0 as int) by {
                if k < frames0.len() {
                    assert(nodes0.contains_key(frames0[k].ppn.0 as int));
                }
            }
            assert forall|p: int| #[trigger] nodes1.contains_key(p) implies mem.allocated(p) by {
                if p != frame.ppn.0 {
                    assert(nodes0.contains_key(p));
                }
            }
        }
    }

    /// Where the walk for `vpn` finds its last-level entry, creating the missing intermediate
    /// tables from fresh zeroed frames; `None` when a needed frame cannot be had.
    fn find_pte_create(&mut self, mem: &mut Memory, vpn: VirtPageNum) -> (r: Option<(PhysPageNum, u64)>)
        requires
            old(self).wf(*old(mem)),
            old(mem).wf(),
        ensures
            final(self).wf(*final(mem)),
            final(mem).wf(),
            final(self).grew_from(old(self), *old(mem), *final(mem)),
            final(self).view_in(final(mem).phys) == old(self).view_in(old(mem).phys),
            r is None ==> final(mem).allocator.free_count() == 0,
            r is None ==> old(mem).allocator.free_count() <= 1,
            final(mem).allocator.free_count() >= old(mem).allocator.free_count() - 2,
            walk(old(mem).phys, old(self).root(), vpn.0) is Some ==> r is Some && final(mem).allocator == old(mem).allocator,
            r matches Some((p, i)) ==> {
                &&& walk(final(mem).phys, final(self).root(), vpn.0) == Some((p.0 as int, i as int))
                &&& i as int == idx2(vpn.0)
                &&& final(self).nodes@.contains_key(p.0 as int)
                &&& final(self).nodes@[p.0 as int] == (2int, idx0(vpn.0) * 512 + idx1(vpn.0))
            },
    {
        let ghost mem0 = *mem;
        let ghost pt0 = *self;
        let idxs = vpn.indexes();
        proof {
            lemma_key_indexes(vpn.0);
            lemma_walk_labels(self.root(), self.nodes@, mem.phys, vpn.0);
        }
        let root = self.root_ppn;
        proof { self.lemma_grew_refl(*mem); }
        let e0 = PageTableEntry { bits: mem.phys.read_word(root, idxs[0]) };
        if !e0.is_valid() {
            let ghost mem_a = *mem;
            match mem.frame_alloc() {
                None => {
                    proof { self.lemma_grew_keep(&pt0, mem0, mem_a, *mem); }
                    return None;
                },
                Some(frame) => {
                    let ghost pt_a = *self;
                    proof {
                        self.lemma_fresh_frame(mem_a, *mem, frame.ppn.0 as int);
                        self.lemma_keep_wf_after_alloc(mem_a, *mem, frame.ppn.0 as int);
                    }
                    let ghost mem_a2 = *mem;
                    self.attach(mem, root, idxs[0], frame, Ghost(1int));
                    proof {
                        self.lemma_grew_one(&pt_a, mem_a, mem_a2, *mem, frame.ppn.0 as int, root.0 as int);
                        self.lemma_grew_trans(&pt_a, &pt0, mem0, mem_a, *mem);
                    }
                },
            }
        }
        proof {
            lemma_walk_labels(self.root(), self.nodes@, mem.phys, vpn.0);
        }
        let e0 = PageTableEntry { bits: mem.phys.read_word(root, idxs[0]) };
        let p1 = e0.ppn();
        let e1 = PageTableEntry { bits: mem.phys.read_word(p1, idxs[1]) };
        if !e1.is_valid() {
            let ghost mem_b = *mem;
            let ghost pt_b = *self;
            match mem.frame_alloc() {
                None => {
                    proof { self.lemma_grew_keep(&pt0, mem0, mem_b, *mem); }
                    return None;
                },
                Some(frame) => {
                    proof {
                        self.lemma_fresh_frame(mem_b, *mem, frame.ppn.0 as int);
                        self.lemma_keep_wf_after_alloc(mem_b, *mem, frame.ppn.0 as int);
                        assert(self.nodes@[p1.0 as int] == (1int, idx0(vpn.0)));
                    }
                    let ghost mem_b2 = *mem;
                    self.attach(mem, p1, idxs[1], frame, Ghost(2int));
                    proof {
                        assert(p1.0 != root.0);
                        assert(mem_b2.phys.wf());
                        assert(mem_b2.phys.has_frame(root.0 as int));
                        lemma_same_outside_word(&mem_b2.phys, &mem.phys, set![p1.0 as int], root.0 as int, idxs[0] as int);
                        assert(mem_b2.phys.word(root.0 as int, idxs[0] as int) == mem_b.phys.word(root.0 as int, idxs[0] as int));
                        self.lemma_grew_one(&pt_b, mem_b, mem_b2, *mem, frame.ppn.0 as int, p1.0 as int);
                        self.lemma_grew_trans(&pt_b, &pt0, mem0, mem_b, *mem);
                    }
                },
            }
        }
        proof {
            lemma_walk_labels(self.root(), self.nodes@, mem.phys, vpn.0);
        }
        let e1 = PageTableEntry { bits: mem.phys.read_word(p1, idxs[1]) };
        let p2 = e1.ppn();
        Some((p2, idxs[2]))
    }
}

/// The walk for `v` is the walk for its low 27 bits.
pub proof fn lemma_walk_key(phys: PhysMem, root: int, v: u64)
    ensures
        walk(phys, root, v) == walk(phys, root, vpn_key(v)),
        translate_spec(phys, root, v) == translate_spec(phys, root, vpn_key(v)),
        is_mapped(phys, root, v) == mapping(phys, root).contains_key(vpn_key(v)),
        is_mapped(phys, root, v) ==> mapping(phys, root)[vpn_key(v)] == translate_spec(phys, root, v).unwrap(),
{
    lemma_key_indexes(v);
}

impl PageTable {
    /// Maps virtual page `vpn` (its low 27 bits) to physical page `ppn` with `flags` and the V
    /// flag, creating intermediate tables as needed. The page must not be mapped. Returns `false`
    /// when a frame for an intermediate table cannot be had; the mapping is then unchanged.
    pub fn map(&mut self, mem: &mut Memory, vpn: VirtPageNum, ppn: PhysPageNum, flags: PTEFlags) -> (r: bool)
        requires
            old(self).wf(*old(mem)),
            old(mem).wf(),
            !old(self).view_in(old(mem).phys).contains_key(vpn_key(vpn.0)),
        ensures
            final(self).wf(*final(mem)),
            final(mem).wf(),
            final(self).grew_from(old(self), *old(mem), *final(mem)),
            r ==> final(self).view_in(final(mem).phys) == old(self).view_in(old(mem).phys).insert(
                vpn_key(vpn.0),
                PageTableEntry { bits: pte_bits(ppn.0, flags.bits | 1) },
            ),
            !r ==> final(self).view_in(final(mem).phys) == old(self).view_in(old(mem).phys),
            !r ==> final(mem).allocator.free_count() == 0,
            !r ==> old(mem).allocator.free_count() <= 1,
            final(mem).allocator.free_count() >= old(mem).allocator.free_count() - 2,
            walk(old(mem).phys, old(self).root(), vpn.0) is Some ==> r && final(mem).allocator == old(mem).allocator,
    {
        match self.find_pte_create(mem, vpn) {
            None => false,
            Some((p, i)) => {
                let ghost mem_c = *mem;
                proof {
                    lemma_walk_key(mem.phys, self.root(), vpn.0);
                    lemma_key_indexes(vpn.0);
                }
                let pte = PageTableEntry::new(ppn, flags.union(PTEFlags::V()));
                mem.phys.write_word(p, i, pte.bits);
                proof {
                    let k = vpn_key(vpn.0);
                    assert forall|q: int, j: int|
                        self.nodes@.contains_key(q) && 0 <= j < 512 && (q != p.0 || j != i) implies #[trigger] mem.phys.word(q, j)
                            == mem_c.phys.word(q, j) by {
                        assert(mem_c.phys.has_frame(q));
                    }
                    lemma_set_leaf(self.root(), self.nodes@, mem_c.phys, mem.phys, p.0 as int, i as int, k);
                    let b = flags.bits;
                    assert((b | 1u8) & 1 != 0) by (bit_vector);
                    Memory::lemma_wf_bytes_changed(mem_c, *mem);
                    assert(set![p.0 as int].subset_of(self.frame_set()));
                    lemma_same_outside_trans(&old(mem).phys, &mem_c.phys, &mem.phys, self.frame_set(), set![p.0 as int], self.frame_set());
                    assert forall|q: int| #[trigger] mem.allocated(q) == (old(mem).allocated(q) || self.frame_set().contains(q)) by {
                        assert(mem.allocated(q) == mem_c.allocated(q));
                    }
                }
                true
            },
        }
    }

    /// Removes the mapping of virtual page `vpn` (its low 27 bits), which must be mapped.
    pub fn unmap(&mut self, mem: &mut Memory, vpn: VirtPageNum)
        requires
            old(self).wf(*old(mem)),
            old(mem).wf(),
            old(self).view_in(old(mem).phys).contains_key(vpn_key(vpn.0)),
        ensures
            final(self).wf(*final(mem)),
            final(mem).wf(),
            final(self).frame_set() == old(self).frame_set(),
            final(self).root() == old(self).root(),
            final(mem).allocator == old(mem).allocator,
            old(mem).phys.same_outside(&final(mem).phys, old(self).frame_set()),
            final(self).view_in(final(mem).phys) == old(self).view_in(old(mem).phys).remove(vpn_key(vpn.0)),
            translate_spec(final(mem).phys, final(self).root(), vpn.0) == Some(PageTableEntry { bits: 0 }),
    {
        proof {
            lemma_walk_key(mem.phys, self.root(), vpn.0);
            lemma_key_indexes(vpn.0);
            lemma_walk_labels(self.root(), self.nodes@, mem.phys, vpn.0);
        }
        match self.find_pte(&mem.phys, vpn) {
            None => {
                assert(false);
            },
            Some((p, i)) => {
                let ghost mem_c = *mem;
                let pte = PageTableEntry::empty();
                mem.phys.write_word(p, i, pte.bits);
                proof {
                    let k = vpn_key(vpn.0);
                    assert forall|q: int, j: int|
                        self.nodes@.contains_key(q) && 0 <= j < 512 && (q != p.0 || j != i) implies #[trigger] mem.phys.word(q, j)
                            == mem_c.phys.word(q, j) by {
                        assert(mem_c.phys.has_frame(q));
                    }
                    lemma_set_leaf(self.root(), self.nodes@, mem_c.phys, mem.phys, p.0 as int, i as int, k);
                    lemma_walk_key(mem.phys, self.root(), vpn.0);
                    lemma_valid_bit();
                    Memory::lemma_wf_bytes_changed(mem_c, *mem);
                    assert forall|q: int, off: int|
                        #![trigger mem.phys.byte(q, off)]
                        mem_c.phys.has_frame(q) && 0 <= off < PAGE_SIZE && !self.frame_set().contains(q) implies mem.phys.byte(q, off)
                            == mem_c.phys.byte(q, off) by {}
                }
            },
        }
    }
}

impl PageTable {
    /// A table is unaffected by changes of memory that leave its frames' bytes alone and its
    /// frames handed out.
    pub proof fn lemma_frame_local(&self, m0: Memory, m1: Memory, s: Set<int>)
        requires
            self.wf(m0),
            m0.phys.same_outside(&m1.phys, s),
            s.disjoint(self.frame_set()),
            forall|p: int| #[trigger] self.frame_set().contains(p) ==> m1.allocated(p),
        ensures
            self.wf(m1),
            self.view_in(m1.phys) == self.view_in(m0.phys),
            forall|k: u64| #[trigger] translate_spec(m1.phys, self.root(), k) == translate_spec(m0.phys, self.root(), k),
    {
        assert forall|p: int, i: int| self.nodes@.contains_key(p) && 0 <= i < 512 implies #[trigger] m1.phys.word(p, i)
            == m0.phys.word(p, i) by {
            assert(!s.contains(p));
            lemma_same_outside_word(&m0.phys, &m1.phys, s, p, i);
        }
        lemma_tree_frame_local(self.root(), self.nodes@, m0.phys, m1.phys);
    }

    /// The frames of a well-formed table are handed out and lie in memory.
    pub proof fn lemma_frames_allocated(&self, mem: Memory)
        requires
            self.wf(mem),
        ensures
            forall|p: int| #[trigger] self.frame_set().contains(p) ==> mem.allocated(p) && mem.phys.has_frame(p),
            self.frame_set().contains(self.root()),
    {
    }
}

impl PageTable {
    /// Gives back every frame that the table owns, as dropping it does.
    pub fn release(self, mem: &mut Memory)
        requires
            old(mem).wf(),
            self.wf(*old(mem)),
        ensures
            final(mem).wf(),
            final(mem).phys == old(mem).phys,
            final(mem).allocator.end() == old(mem).allocator.end(),
            final(mem).allocator.free_count() >= old(mem).allocator.free_count(),
            forall|q: int| #[trigger] final(mem).allocated(q) == (old(mem).allocated(q) && !self.frame_set().contains(q)),
    {
        let ghost mem0 = *mem;
        proof {
            self.lemma_frames_allocated(mem0);
        }
        let n = self.frames.len();
        let mut i: usize = 0;
        while i < n
            invariant
                n == self.frames@.len(),
                0 <= i <= n,
                mem0 == *old(mem),
                self.wf(mem0),
                forall|p: int| #[trigger] self.frame_set().contains(p) ==> mem0.allocated(p) && mem0.phys.has_frame(p),
                mem.wf(),
                mem.phys == mem0.phys,
                mem.allocator.end() == mem0.allocator.end(),
                mem.allocator.free_count() >= mem0.allocator.free_count(),
                forall|q: int| #[trigger] mem.allocated(q) == (mem0.allocated(q) && !(exists|j: int| 0 <= j < i && self.frames@[j].ppn.0 == q)),
            decreases n - i,
        {
            let ppn = self.frames[i].ppn;
            let ghost mb = *mem;
            proof {
                assert(self.frame_set().contains(ppn.0 as int));
                if exists|j: int| 0 <= j < i && self.frames@[j].ppn.0 == ppn.0 {
                    let j = choose|j: int| 0 <= j < i && self.frames@[j].ppn.0 == ppn.0;
                    assert(self.frames@[j].ppn != self.frames@[i as int].ppn);
                }
            }
            mem.frame_dealloc(ppn);
            proof {
                assert forall|q: int| #[trigger] mem.allocated(q) == (mem0.allocated(q) && !(exists|j: int| 0 <= j < i + 1 && self.frames@[j].ppn.0 == q)) by {
                    if q == ppn.0 {
                        assert(0 <= i < i + 1 && self.frames@[i as int].ppn.0 == q);
                    } else {
                        assert(mb.allocated(q) == (mem0.allocated(q) && !(exists|j: int| 0 <= j < i && self.frames@[j].ppn.0 == q)));
                        if exists|j: int| 0 <= j < i + 1 && self.frames@[j].ppn.0 == q {
                            let j = choose|j: int| 0 <= j < i + 1 && self.frames@[j].ppn.0 == q;
                            assert(0 <= j < i && self.frames@[j].ppn.0 == q);
                        }
                    }
                }
            }
            i = i + 1;
        }
        proof {
            assert forall|q: int| #[trigger] mem.allocated(q) == (mem0.allocated(q) && !self.frame_set().contains(q)) by {
                if self.frame_set().contains(q) {
                    let j = choose|j: int| 0 <= j < self.frames@.len() && self.frames@[j].ppn.0 == q;
                    assert(0 <= j < n && self.frames@[j].ppn.0 == q);
                }
                if exists|j: int| 0 <= j < n && self.frames@[j].ppn.0 == q {
                    let j = choose|j: int| 0 <= j < n && self.frames@[j].ppn.0 == q;
                    assert(self.nodes@.contains_key(self.frames@[j].ppn.0 as int));
                }
            }
        }
    }
}

/// After `map` of page `vpn` to frame `ppn` with `flags`, the page reaches a valid entry holding
/// that frame and those flags; `unmap` of the same page then gives back the mapping of before.
pub proof fn lemma_map_then_unmap(view0: Map<u64, PageTableEntry>, view1: Map<u64, PageTableEntry>,
    view2: Map<u64, PageTableEntry>, vpn: u64, ppn: u64, flags: u8)
    requires
        !view0.contains_key(vpn_key(vpn)),
        view1 == view0.insert(vpn_key(vpn), PageTableEntry { bits: pte_bits(ppn, flags | 1) }),
        view2 == view1.remove(vpn_key(vpn)),
    ensures
        view1.contains_key(vpn_key(vpn)),
        view1[vpn_key(vpn)].ppn_spec() == ppn % 0x1000_0000_0000,
        view1[vpn_key(vpn)].flags_spec() == flags | 1,
        view1[vpn_key(vpn)].valid_spec(),
        view2 == view0,
{
    lemma_pte_bits(ppn, flags | 1);
    assert((flags | 1) & 1 != 0) by (bit_vector);
    assert(view2 =~= view0);
}

/// The empty entry has no V flag, and the flags 1 have it.
pub proof fn lemma_valid_bit()
    ensures
        0u64 & 1 == 0,
        1u8 & 1 != 0,
{
    assert(0u64 & 1 == 0 && 1u8 & 1 != 0) by (bit_vector);
}

} // verus!
