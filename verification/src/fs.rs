//! The console system calls: writing a user buffer out, and reading one character into one.
use vstd::prelude::*;
use crate::address::PhysPageNum;
use crate::mm::{piece_count, piece_start, token_root, translated_byte_buffer, user_byte, user_place};
use crate::phys_mem::PhysMem;

verus! {

/// File descriptor of the console input.
pub const FD_STDIN: u64 = 0;

/// File descriptor of the console output.
pub const FD_STDOUT: u64 = 1;

/// The `k`-th piece of the user range `[buf, buf + len)` lies in page `buf / 4096 + k`, starts at
/// or after `buf`, and ends after its start, no further than the end of the range and of the page;
/// the last piece ends the range.
proof fn lemma_piece(buf: int, len: int, k: int)
    requires
        0 <= buf,
        0 < len,
        0 <= k < piece_count(buf, len),
    ensures
        ({
            let ps = piece_start(buf, buf + len, k);
            let pe = piece_start(buf, buf + len, k + 1);
            let page = buf / 4096 + k;
            &&& buf <= ps < pe <= buf + len
            &&& page * 4096 <= ps
            &&& pe <= (page + 1) * 4096
            &&& ps / 4096 == page
            &&& k + 1 == piece_count(buf, len) ==> pe == buf + len
        }),
{
    let p0 = buf / 4096;
    let end = buf + len;
    let n = piece_count(buf, len);
    assert(p0 * 4096 <= buf < (p0 + 1) * 4096) by (nonlinear_arith)
        requires
            p0 == buf / 4096,
            0 <= buf;
    assert(n == (end - 1) / 4096 - p0 + 1);
    assert((end - 1) / 4096 * 4096 <= end - 1 < ((end - 1) / 4096 + 1) * 4096) by (nonlinear_arith)
        requires
            end >= 1;
    if k == 0 {
        assert((p0 + k) * 4096 < end);
    } else {
        let q = (end - 1) / 4096;
        assert(p0 + k <= q);
        assert((p0 + k) * 4096 <= q * 4096) by (nonlinear_arith)
            requires
                p0 + k <= q;
    }
    assert((p0 + k + 1) * 4096 == (p0 + k) * 4096 + 4096) by (nonlinear_arith);
    if k + 1 == n {
        assert(end <= (p0 + k + 1) * 4096) by (nonlinear_arith)
            requires
                p0 + k == (end - 1) / 4096,
                end - 1 < ((end - 1) / 4096 + 1) * 4096;
    } else {
        assert((p0 + k + 1) * 4096 <= end - 1) by (nonlinear_arith)
            requires
                p0 + k + 1 <= (end - 1) / 4096,
                (end - 1) / 4096 * 4096 <= end - 1;
    }
    if k >= 1 {
        assert(((p0 + k) * 4096) / 4096 == p0 + k) by (nonlinear_arith);
    }
}

/// Two addresses below 2^39 in one page reach one frame, at their own offsets.
proof fn lemma_same_page_place(phys: PhysMem, root: int, a: int, b: int)
    requires
        0 <= a < 0x80_0000_0000,
        0 <= b < 0x80_0000_0000,
        a / 4096 == b / 4096,
    ensures
        user_place(phys, root, a) is Some == user_place(phys, root, b) is Some,
        user_place(phys, root, a) is Some ==> user_place(phys, root, a) == Some((user_place(phys, root, b).unwrap().0, a % 4096)),
{
    assert(a % 0x80_0000_0000 == a);
    assert(b % 0x80_0000_0000 == b);
}

/// The bytes of the user range `[buf, buf + len)` of the address space with token `token`, to be
/// written to the console, with `len` as the result; -1 and no bytes when one of its pages cannot
/// be reached. Only the console output can be written to.
pub fn sys_write(phys: &PhysMem, token: u64, fd: u64, buf: u64, len: u64) -> (r: (i64, Option<Vec<u8>>))
    requires
        phys.wf(),
        fd == FD_STDOUT,
        buf + len <= 0x80_0000_0000,
    ensures
        r.1 is Some <==> forall|i: int| 0 <= i < len ==> #[trigger] user_byte(*phys, token_root(token), buf + i) is Some,
        r.1 matches Some(bytes) ==> {
            &&& r.0 == len
            &&& bytes@.len() == len
            &&& forall|i: int| 0 <= i < len ==> #[trigger] user_byte(*phys, token_root(token), buf + i) == Some(bytes@[i])
        },
        r.1 is None ==> r.0 == -1,
{
    let ghost root = token_root(token);
    let ghost end = buf + len;
    let pieces = match translated_byte_buffer(phys, token, buf, len) {
        None => {
            proof {
                let k = choose|k: int| 0 <= k < piece_count(buf as int, len as int)
                    && !(#[trigger] user_place(*phys, root, piece_start(buf as int, end, k)) is Some);
                lemma_piece(buf as int, len as int, k);
                let i = piece_start(buf as int, end, k) - buf;
                assert(!(user_byte(*phys, root, buf + i) is Some));
            }
            return (-1, None);
        },
        Some(p) => p,
    };
    let mut out: Vec<u8> = Vec::new();
    let mut k: usize = 0;
    while k < pieces.len()
        invariant
            phys.wf(),
            root == token_root(token),
            end == buf + len,
            end <= 0x80_0000_0000,
            pieces@.len() == piece_count(buf as int, len as int),
            forall|j: int| 0 <= j < pieces@.len() ==> user_place(*phys, root, piece_start(buf as int, end, j))
                == Some(((#[trigger] pieces@[j]).0.0 as int, pieces@[j].1 as int)),
            forall|j: int| 0 <= j < pieces@.len() ==> (#[trigger] pieces@[j]).2 == piece_start(buf as int, end, j + 1)
                - (buf / 4096 + j) * 4096,
            0 <= k <= pieces@.len(),
            k < pieces@.len() ==> out@.len() == piece_start(buf as int, end, k as int) - buf,
            k == pieces@.len() ==> out@.len() == len,
            forall|i: int| 0 <= i < out@.len() ==> #[trigger] user_byte(*phys, root, buf + i) == Some(out@[i]),
        decreases pieces@.len() - k,
    {
        let (ppn, from, to) = pieces[k];
        let ghost ps = piece_start(buf as int, end, k as int);
        let ghost page = buf / 4096 + k;
        proof {
            lemma_piece(buf as int, len as int, k as int);
            assert(user_place(*phys, root, ps) == Some((ppn.0 as int, from as int)));
            assert(from == ps % 4096);
            assert(ps % 4096 == ps - page * 4096) by (nonlinear_arith)
                requires
                    ps / 4096 == page,
                    ps >= 0;
        }
        let mut off = from;
        while off < to
            invariant
                phys.wf(),
                root == token_root(token),
                end == buf + len,
                end <= 0x80_0000_0000,
                page * 4096 <= ps,
                ps == page * 4096 + from,
                from <= off <= to,
                to <= 4096,
                page * 4096 + to <= end,
                user_place(*phys, root, ps) == Some((ppn.0 as int, from as int)),
                out@.len() == page * 4096 + off - buf,
                forall|i: int| 0 <= i < out@.len() ==> #[trigger] user_byte(*phys, root, buf + i) == Some(out@[i]),
            decreases to - off,
        {
            let ghost a = page * 4096 + off;
            proof {
                assert(a / 4096 == page && a % 4096 == off) by (nonlinear_arith)
                    requires
                        a == page * 4096 + off,
                        0 <= off < 4096,
                        page >= 0;
                assert(ps / 4096 == page) by (nonlinear_arith)
                    requires
                        ps == page * 4096 + from,
                        0 <= from < 4096,
                        page >= 0;
                lemma_same_page_place(*phys, root, a, ps);
                assert(phys.has_frame(ppn.0 as int));
            }
            let b = phys.read_byte(ppn, off);
            let ghost out0 = out@;
            out.push(b);
            proof {
                assert(user_byte(*phys, root, buf + out0.len()) == Some(b));
                assert forall|i: int| 0 <= i < out@.len() implies #[trigger] user_byte(*phys, root, buf + i) == Some(out@[i]) by {
                    if i < out0.len() {
                        assert(out@[i] == out0[i]);
                    }
                }
            }
            off = off + 1;
        }
        k = k + 1;
    }
    proof {
        if len == 0 {
            assert(out@.len() == 0);
        }
        assert forall|i: int| 0 <= i < len implies #[trigger] user_byte(*phys, root, buf + i) is Some by {
            assert(user_byte(*phys, root, buf + i) == Some(out@[i]));
        }
    }
    (len as i64, Some(out))
}

/// Puts the character `ch`, read from the console, in the byte at the user address `buf` of the
/// address space with token `token`, through the frame that the entry of its page names: 1; -1,
/// with nothing written, when that page cannot be reached. Only the console input can be read, one
/// character at a time.
pub fn sys_read(phys: &mut PhysMem, token: u64, fd: u64, buf: u64, len: u64, ch: u8) -> (r: i64)
    requires
        old(phys).wf(),
        fd == FD_STDIN,
        len == 1,
        buf + len <= 0x80_0000_0000,
    ensures
        final(phys).wf(),
        match user_place(*old(phys), token_root(token), buf as int) {
            Some((p, off)) => r == 1 && final(phys).first() == old(phys).first()
                && final(phys).bytes() == old(phys).bytes().update(old(phys).pos(p, off), ch),
            None => r == -1 && *final(phys) == *old(phys),
        },
{
    proof {
        assert(piece_count(buf as int, 1) == 1);
        assert(piece_start(buf as int, buf + 1, 0) == buf);
    }
    let pieces = match translated_byte_buffer(phys, token, buf, len) {
        None => return -1,
        Some(p) => p,
    };
    let (ppn, from, _) = pieces[0];
    proof {
        assert(user_place(*phys, token_root(token), buf as int) == Some((ppn.0 as int, from as int)));
    }
    phys.write_byte(ppn, from, ch);
    1
}

} // verus!
