use os::address::{PhysAddr, PhysPageNum, VirtPageNum};
use os::frame_allocator::{Memory, StackFrameAllocator};
use os::fs::{sys_read, sys_write, FD_STDIN, FD_STDOUT};
use os::mm::{copy_to_user, read_virtaddr, translated_byte_buffer, translated_refmut, translated_str, write_virtaddr};
use os::page_table::{PTEFlags, PageTable};
use os::phys_mem::PhysMem;
use os::syscall::{sys_get_time, sys_trace, TimeVal};

fn memory(first: u64, pages: usize) -> Memory {
    let phys = PhysMem::new(PhysPageNum(first), pages);
    let mut allocator = StackFrameAllocator::new();
    allocator.init(PhysPageNum(first), PhysPageNum(first + pages as u64));
    Memory { allocator, phys }
}

/// A user space with pages 0x10 and 0x11 readable and writable, page 0x12 only readable.
fn user_space() -> (Memory, u64, PhysPageNum, PhysPageNum, PhysPageNum) {
    let mut mem = memory(0x80000, 64);
    let mut pt = PageTable::new(&mut mem).unwrap();
    let rw = PTEFlags::R().union(PTEFlags::W()).union(PTEFlags::U());
    let ro = PTEFlags::R().union(PTEFlags::U());
    let a = mem.frame_alloc().unwrap().ppn;
    let b = mem.frame_alloc().unwrap().ppn;
    let c = mem.frame_alloc().unwrap().ppn;
    assert!(pt.map(&mut mem, VirtPageNum(0x10), a, rw));
    assert!(pt.map(&mut mem, VirtPageNum(0x11), b, rw));
    assert!(pt.map(&mut mem, VirtPageNum(0x12), c, ro));
    let token = pt.token();
    (mem, token, a, b, c)
}

#[test]
fn write_then_read_gives_the_byte_back() {
    let (mut mem, token, a, _, _) = user_space();
    assert_eq!(write_virtaddr(&mut mem.phys, token, 0x10_123, 0xab), Ok(()));
    assert_eq!(read_virtaddr(&mem.phys, token, 0x10_123), Ok(0xab));
    assert_eq!(mem.phys.read_byte(a, 0x123), 0xab);
}

#[test]
fn reading_or_writing_unmapped_or_protected_fails() {
    let (mut mem, token, _, _, c) = user_space();
    assert_eq!(read_virtaddr(&mem.phys, token, 0x20_000), Err(()));
    assert_eq!(write_virtaddr(&mut mem.phys, token, 0x20_000, 1), Err(()));
    assert_eq!(write_virtaddr(&mut mem.phys, token, 0x12_000, 1), Err(()));
    assert_eq!(mem.phys.read_byte(c, 0), 0);
    assert_eq!(read_virtaddr(&mem.phys, token, 0x12_000), Ok(0));
}

#[test]
fn copy_to_user_crosses_a_page_boundary() {
    let (mut mem, token, a, b, _) = user_space();
    let data = [1u8, 2, 3, 4, 5, 6];
    assert_eq!(copy_to_user(&mut mem.phys, token, 0x10_ffd, &data), Ok(()));
    assert_eq!(mem.phys.read_byte(a, 0xffd), 1);
    assert_eq!(mem.phys.read_byte(a, 0xfff), 3);
    assert_eq!(mem.phys.read_byte(b, 0), 4);
    assert_eq!(mem.phys.read_byte(b, 2), 6);
    for (i, byte) in data.iter().enumerate() {
        assert_eq!(read_virtaddr(&mem.phys, token, 0x10_ffd + i as u64), Ok(*byte as i64));
    }
}

#[test]
fn copy_to_user_into_unmapped_page_writes_nothing() {
    let (mut mem, token, _, b, _) = user_space();
    let data = [9u8; 8];
    assert_eq!(copy_to_user(&mut mem.phys, token, 0x13_ffc, &data), Err(()));
    assert_eq!(copy_to_user(&mut mem.phys, token, 0x11_ffc, &[7u8; 2]), Ok(()));
    assert_eq!(mem.phys.read_byte(b, 0xffc), 7);
}

#[test]
fn time_val_splits_microseconds() {
    let tv = TimeVal::from_us(3_000_042);
    assert_eq!(tv.sec, 3);
    assert_eq!(tv.usec, 42);
    let bytes = tv.to_bytes();
    assert_eq!(bytes.len(), 16);
    assert_eq!(&bytes[0..8], &3u64.to_le_bytes());
    assert_eq!(&bytes[8..16], &42u64.to_le_bytes());
}

#[test]
fn get_time_writes_time_val_across_pages() {
    let (mut mem, token, a, b, _) = user_space();
    assert_eq!(sys_get_time(&mut mem.phys, token, 12_345_678, 0x10_ff8, 0), 0);
    let mut sec = [0u8; 8];
    let mut usec = [0u8; 8];
    for i in 0..8u64 {
        sec[i as usize] = mem.phys.read_byte(a, 0xff8 + i);
        usec[i as usize] = mem.phys.read_byte(b, i);
    }
    assert_eq!(u64::from_le_bytes(sec), 12);
    assert_eq!(u64::from_le_bytes(usec), 345_678);
    assert_eq!(sys_get_time(&mut mem.phys, token, 1, 0x30_000, 0), -1);
}

#[test]
fn trace_reads_writes_and_counts() {
    let (mut mem, token, _, _, _) = user_space();
    let mut counts = vec![0u32; 500];
    counts[169] = 4;
    assert_eq!(sys_trace(&mut mem.phys, token, &counts, 1, 0x10_010, 0x1ff), 0);
    assert_eq!(sys_trace(&mut mem.phys, token, &counts, 0, 0x10_010, 0), 0xff);
    assert_eq!(sys_trace(&mut mem.phys, token, &counts, 2, 169, 0), 4);
    assert_eq!(sys_trace(&mut mem.phys, token, &counts, 2, 500, 0), -1);
    assert_eq!(sys_trace(&mut mem.phys, token, &counts, 3, 0x10_010, 0), -1);
    assert_eq!(sys_trace(&mut mem.phys, token, &counts, 1, 0x12_000, 5), -1);
    assert_eq!(sys_trace(&mut mem.phys, token, &counts, 0, 0x9000_0000, 0), -1);
}

#[test]
fn translated_str_reads_up_to_the_zero() {
    let (mut mem, token, _, _, _) = user_space();
    assert_eq!(copy_to_user(&mut mem.phys, token, 0x10_ffe, b"hello\0"), Ok(()));
    assert_eq!(translated_str(&mem.phys, token, 0x10_ffe), Some(b"hello".to_vec()));
    assert_eq!(translated_str(&mem.phys, token, 0x11_003), Some(Vec::new()));
}

#[test]
fn translated_str_crosses_pages_and_needs_its_zero() {
    let (mut mem, token, _, _, c) = user_space();
    let ones = vec![1u8; 4096];
    assert_eq!(copy_to_user(&mut mem.phys, token, 0x11_000, &ones), Ok(()));
    assert_eq!(translated_str(&mem.phys, token, 0x11_000), Some(ones.clone()));
    for off in 0..4096u64 {
        mem.phys.write_byte(c, off, 1);
    }
    assert_eq!(translated_str(&mem.phys, token, 0x12_000), None);
    assert_eq!(translated_str(&mem.phys, token, 0x13_000), None);
}

#[test]
fn byte_buffer_is_cut_at_page_boundaries() {
    let (mem, token, a, b, c) = user_space();
    let pieces = translated_byte_buffer(&mem.phys, token, 0x10_ff0, 0x1020).unwrap();
    assert_eq!(pieces, vec![(a, 0xff0, 0x1000), (b, 0, 0x1000), (c, 0, 0x10)]);
    let one = translated_byte_buffer(&mem.phys, token, 0x11_010, 0x20).unwrap();
    assert_eq!(one, vec![(b, 0x10, 0x30)]);
    assert_eq!(translated_byte_buffer(&mem.phys, token, 0x12_ff0, 0x20), None);
    assert_eq!(translated_byte_buffer(&mem.phys, token, 0x10_000, 0), Some(Vec::new()));
}

#[test]
fn translated_refmut_gives_the_physical_address() {
    let (mem, token, _, b, _) = user_space();
    assert_eq!(translated_refmut(&mem.phys, token, 0x11_234), Some(PhysAddr((b.0 << 12) | 0x234)));
    assert_eq!(translated_refmut(&mem.phys, token, 0x40_000), Some(PhysAddr(0)));
    assert_eq!(translated_refmut(&mem.phys, token, 0x4000_0000), None);
}

#[test]
fn write_gathers_the_user_bytes() {
    let (mut mem, token, _, _, _) = user_space();
    assert_eq!(copy_to_user(&mut mem.phys, token, 0x10_ffc, b"kernel!\n"), Ok(()));
    let (n, bytes) = sys_write(&mem.phys, token, FD_STDOUT, 0x10_ffc, 8);
    assert_eq!(n, 8);
    assert_eq!(bytes.unwrap(), b"kernel!\n".to_vec());
    let (n, bytes) = sys_write(&mem.phys, token, FD_STDOUT, 0x12_fff, 2);
    assert_eq!(n, -1);
    assert!(bytes.is_none());
}

#[test]
fn read_puts_the_character_in_place() {
    let (mut mem, token, _, b, _) = user_space();
    assert_eq!(sys_read(&mut mem.phys, token, FD_STDIN, 0x11_042, 1, b'x'), 1);
    assert_eq!(mem.phys.read_byte(b, 0x42), b'x');
    assert_eq!(sys_read(&mut mem.phys, token, FD_STDIN, 0x50_000, 1, b'y'), -1);
}

#[test]
fn trace_reaches_user_pages_above_memory_end() {
    let mut mem = memory(0x80000, 16);
    let mut pt = PageTable::new(&mut mem).unwrap();
    let rw = PTEFlags::R().union(PTEFlags::W()).union(PTEFlags::U());
    let f = mem.frame_alloc().unwrap().ppn;
    assert!(pt.map(&mut mem, VirtPageNum(0x9_0000), f, rw));
    let token = pt.token();
    let counts = vec![0u32; 500];
    assert_eq!(sys_trace(&mut mem.phys, token, &counts, 1, 0x9000_0040, 0x7e), 0);
    assert_eq!(sys_trace(&mut mem.phys, token, &counts, 0, 0x9000_0040, 0), 0x7e);
    assert_eq!(mem.phys.read_byte(f, 0x40), 0x7e);
}

#[test]
fn copying_nothing_always_succeeds() {
    let (mut mem, token, _, _, _) = user_space();
    assert_eq!(copy_to_user(&mut mem.phys, token, 0xffff_ffff_0000_0000, b""), Ok(()));
    assert_eq!(copy_to_user(&mut mem.phys, token, 0x9000_0000, b""), Ok(()));
}
