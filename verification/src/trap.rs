//! The trap context of a process: the words that the trap code saves on a trap into the kernel
//! and restores on the way back to user mode, kept in the process's trap context frame.
use vstd::prelude::*;
use crate::address::PhysPageNum;
use crate::phys_mem::{PhysMem, lemma_same_outside_trans};

verus! {

/// Word of the trap context that holds general register `x0`; `x1` to `x31` follow.
pub const TRAP_X0: u64 = 0;
/// Word of the trap context that holds `x10` (`a0`), the register that a call returns in.
pub const TRAP_A0: u64 = 10;
/// Word of the trap context that holds `sstatus`.
pub const TRAP_SSTATUS: u64 = 32;
/// Word of the trap context that holds `sepc`, where user mode goes on.
pub const TRAP_SEPC: u64 = 33;
/// Word of the trap context that holds the kernel's `satp`.
pub const TRAP_KERNEL_SATP: u64 = 34;
/// Word of the trap context that holds the top of the process's kernel stack.
pub const TRAP_KERNEL_SP: u64 = 35;
/// Word of the trap context that holds the address of the trap handler.
pub const TRAP_HANDLER: u64 = 36;
/// Number of words of a trap context.
pub const TRAP_WORDS: u64 = 37;
/// The SPP bit of `sstatus`: the privilege level before the trap, clear for user mode.
pub const SSTATUS_SPP: u64 = 0x100;

/// The trap context of a program about to start at `entry` with stack pointer `sp`: every
/// general register 0 but `x2` (`sp`); `sstatus` as `sstatus` reads, with SPP cleared so that
/// the return goes to user mode; `sepc` at `entry`; the kernel's `satp`, the top of the kernel
/// stack and the trap handler's address for the next trap.
pub open spec fn app_context(entry: u64, sp: u64, sstatus: u64, kernel_satp: u64, kernel_sp: u64, trap_handler: u64) -> Seq<u64> {
    Seq::new(TRAP_WORDS as nat, |j: int|
        if j == 2 {
            sp
        } else if j < 32 {
            0u64
        } else if j == TRAP_SSTATUS {
            sstatus & !SSTATUS_SPP
        } else if j == TRAP_SEPC {
            entry
        } else if j == TRAP_KERNEL_SATP {
            kernel_satp
        } else if j == TRAP_KERNEL_SP {
            kernel_sp
        } else {
            trap_handler
        })
}

/// Word `idx` of frame `p` becomes `w`, and nothing else of memory changes but frame `p`.
fn put_word(phys: &mut PhysMem, p: PhysPageNum, idx: u64, w: u64)
    requires
        old(phys).wf(),
        old(phys).has_frame(p.0 as int),
        idx < 512,
    ensures
        final(phys).wf(),
        final(phys).has_frame(p.0 as int),
        old(phys).same_outside(final(phys), set![p.0 as int]),
        final(phys).word(p.0 as int, idx as int) == w,
        forall|j: int| #![trigger final(phys).word(p.0 as int, j)] 0 <= j < 512 && j != idx ==> final(phys).word(p.0 as int, j) == old(phys).word(p.0 as int, j),
{
    phys.write_word(p, idx, w);
    proof {
        assert forall|q: int, off: int|
            #![trigger phys.byte(q, off)]
            old(phys).has_frame(q) && 0 <= off < 4096 && !set![p.0 as int].contains(q) implies phys.byte(q, off) == old(phys).byte(q, off) by {}
    }
}

/// Writes into frame `frame` the trap context `app_context` of a program about to start at
/// `entry` with stack pointer `sp`, for a return to user mode; the rest of memory stays.
pub fn app_init_context(phys: &mut PhysMem, frame: PhysPageNum, entry: u64, sp: u64, sstatus: u64, kernel_satp: u64,
    kernel_sp: u64, trap_handler: u64)
    requires
        old(phys).wf(),
        old(phys).has_frame(frame.0 as int),
    ensures
        final(phys).wf(),
        old(phys).same_outside(final(phys), set![frame.0 as int]),
        forall|j: int| 0 <= j < TRAP_WORDS ==> #[trigger] final(phys).word(frame.0 as int, j)
            == app_context(entry, sp, sstatus, kernel_satp, kernel_sp, trap_handler)[j],
{
    let ghost ctx = app_context(entry, sp, sstatus, kernel_satp, kernel_sp, trap_handler);
    let ghost f = frame.0 as int;
    let ghost p0 = *phys;
    proof {
        crate::phys_mem::lemma_same_outside_refl(phys, set![f]);
    }
    let mut i: u64 = 0;
    while i < 32
        invariant
            phys.wf(),
            phys.has_frame(f),
            f == frame.0,
            0 <= i <= 32,
            p0.same_outside(phys, set![f]),
            ctx == app_context(entry, sp, sstatus, kernel_satp, kernel_sp, trap_handler),
            forall|j: int| 0 <= j < i ==> #[trigger] phys.word(f, j) == ctx[j],
        decreases 32 - i,
    {
        let w: u64 = if i == 2 { sp } else { 0 };
        let ghost pb = *phys;
        put_word(phys, frame, TRAP_X0 + i, w);
        proof {
            lemma_same_outside_trans(&p0, &pb, phys, set![f], set![f], set![f]);
            assert forall|j: int| 0 <= j < i + 1 implies #[trigger] phys.word(f, j) == ctx[j] by {
                if j < i {
                    assert(phys.word(f, j) == pb.word(f, j));
                }
            }
        }
        i = i + 1;
    }
    let ghost p1 = *phys;
    put_word(phys, frame, TRAP_SSTATUS, sstatus & !SSTATUS_SPP);
    let ghost p2 = *phys;
    put_word(phys, frame, TRAP_SEPC, entry);
    let ghost p3 = *phys;
    put_word(phys, frame, TRAP_KERNEL_SATP, kernel_satp);
    let ghost p4 = *phys;
    put_word(phys, frame, TRAP_KERNEL_SP, kernel_sp);
    let ghost p5 = *phys;
    put_word(phys, frame, TRAP_HANDLER, trap_handler);
    proof {
        lemma_same_outside_trans(&p0, &p1, &p2, set![f], set![f], set![f]);
        lemma_same_outside_trans(&p0, &p2, &p3, set![f], set![f], set![f]);
        lemma_same_outside_trans(&p0, &p3, &p4, set![f], set![f], set![f]);
        lemma_same_outside_trans(&p0, &p4, &p5, set![f], set![f], set![f]);
        lemma_same_outside_trans(&p0, &p5, phys, set![f], set![f], set![f]);
        assert forall|j: int| 0 <= j < TRAP_WORDS implies #[trigger] phys.word(f, j) == ctx[j] by {
            if j < 32 {
                assert(p1.word(f, j) == ctx[j]);
                assert(p2.word(f, j) == p1.word(f, j));
                assert(p3.word(f, j) == p2.word(f, j));
                assert(p4.word(f, j) == p3.word(f, j));
                assert(p5.word(f, j) == p4.word(f, j));
            } else if j == 32 {
                assert(p3.word(f, j) == p2.word(f, j));
                assert(p4.word(f, j) == p3.word(f, j));
                assert(p5.word(f, j) == p4.word(f, j));
            } else if j == 33 {
                assert(p4.word(f, j) == p3.word(f, j));
                assert(p5.word(f, j) == p4.word(f, j));
            } else if j == 34 {
                assert(p5.word(f, j) == p4.word(f, j));
            }
        }
    }
}

/// Readies the trap context in frame `frame` of a child just forked: the call returns 0 in the
/// child (`a0`), and the next trap uses the child's kernel stack, whose top is `kernel_sp`. The
/// other words of the context, and the rest of memory, stay.
pub fn fork_child_context(phys: &mut PhysMem, frame: PhysPageNum, kernel_sp: u64)
    requires
        old(phys).wf(),
        old(phys).has_frame(frame.0 as int),
    ensures
        final(phys).wf(),
        old(phys).same_outside(final(phys), set![frame.0 as int]),
        final(phys).word(frame.0 as int, TRAP_A0 as int) == 0,
        final(phys).word(frame.0 as int, TRAP_KERNEL_SP as int) == kernel_sp,
        forall|j: int| 0 <= j < 512 && j != TRAP_A0 && j != TRAP_KERNEL_SP ==> #[trigger] final(phys).word(frame.0 as int, j)
            == old(phys).word(frame.0 as int, j),
{
    let ghost p0 = *phys;
    let ghost f = frame.0 as int;
    put_word(phys, frame, TRAP_A0, 0);
    let ghost p1 = *phys;
    put_word(phys, frame, TRAP_KERNEL_SP, kernel_sp);
    proof {
        lemma_same_outside_trans(&p0, &p1, phys, set![f], set![f], set![f]);
        assert(p1.word(f, TRAP_A0 as int) == 0);
        assert(phys.word(f, TRAP_A0 as int) == p1.word(f, TRAP_A0 as int));
        assert forall|j: int| 0 <= j < 512 && j != TRAP_A0 && j != TRAP_KERNEL_SP implies #[trigger] phys.word(f, j) == p0.word(f, j) by {
            assert(phys.word(f, j) == p1.word(f, j));
        }
    }
}

} // verus!
