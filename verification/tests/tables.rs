use os::address::{PhysAddr, PhysPageNum, VirtAddr, VirtPageNum};
use os::frame_allocator::{frame_allocator_test, init_frame_allocator, Memory, StackFrameAllocator};
use os::id::{kernel_stack_position, pid_alloc, RecycleAllocator};
use os::page_table::{PTEFlags, PageTable, PageTableEntry};
use os::phys_mem::PhysMem;

fn memory(first: u64, pages: usize) -> Memory {
    let phys = PhysMem::new(PhysPageNum(first), pages);
    let mut allocator = StackFrameAllocator::new();
    allocator.init(PhysPageNum(first), PhysPageNum(first + pages as u64));
    Memory { allocator, phys }
}

#[test]
fn virt_addr_pages_and_offsets() {
    let va = VirtAddr::from_u64(0x1_2345);
    assert_eq!(va.floor(), VirtPageNum(0x12));
    assert_eq!(va.ceil(), VirtPageNum(0x13));
    assert_eq!(va.page_offset(), 0x345);
    assert!(!va.aligned());
    let aligned = VirtAddr::from_u64(0x2000);
    assert!(aligned.aligned());
    assert_eq!(aligned.floor(), aligned.ceil());
}

#[test]
fn virt_addr_keeps_39_bits() {
    let va = VirtAddr::from_u64(0xffff_ffff_ffff_f000);
    assert_eq!(va.0, 0x7f_ffff_f000);
    assert_eq!(va.to_u64(), 0xffff_ffff_ffff_f000);
    assert_eq!(VirtAddr::from_u64(0x1000).to_u64(), 0x1000);
}

#[test]
fn phys_addr_keeps_56_bits() {
    assert_eq!(PhysAddr::from_u64(0xff00_0000_0000_1234).0, 0x0000_0000_0000_1234);
    assert_eq!(PhysAddr::from_u64(0x8020_0123).floor(), PhysPageNum(0x80200));
    assert_eq!(PhysAddr::from_u64(0x8020_0123).ceil(), PhysPageNum(0x80201));
    assert_eq!(PhysPageNum::from_u64(0xffff_f000_0000_0001).0, 0x0000_0000_0001);
}

#[test]
fn vpn_indexes_split_nine_bits() {
    let vpn = VirtPageNum((3 << 18) | (5 << 9) | 7);
    assert_eq!(vpn.indexes(), [3, 5, 7]);
}

#[test]
fn pte_holds_frame_and_flags() {
    let flags = PTEFlags::V().union(PTEFlags::R()).union(PTEFlags::X());
    let pte = PageTableEntry::new(PhysPageNum(0x80123), flags);
    assert_eq!(pte.ppn(), PhysPageNum(0x80123));
    assert_eq!(pte.flags(), flags);
    assert!(pte.is_valid());
    assert!(pte.readable());
    assert!(!pte.writable());
    assert!(pte.executable());
    assert!(!PageTableEntry::empty().is_valid());
    assert_eq!(pte.bits, (0x80123u64 << 10) | 0b1011);
}

#[test]
fn frames_come_zeroed_and_freed_frames_come_back_first() {
    let mut mem = memory(0x80000, 8);
    let a = mem.frame_alloc().unwrap();
    let b = mem.frame_alloc().unwrap();
    assert_eq!(a.ppn, PhysPageNum(0x80000));
    assert_eq!(b.ppn, PhysPageNum(0x80001));
    for off in 0..4096u64 {
        assert_eq!(mem.phys.read_byte(a.ppn, off), 0);
    }
    mem.frame_dealloc(a.ppn);
    let again = mem.frame_alloc().unwrap();
    assert_eq!(again.ppn, a.ppn);
}

#[test]
fn frame_allocation_fails_when_memory_is_used_up() {
    let mut mem = memory(0x80000, 2);
    assert!(mem.frame_alloc().is_some());
    assert!(mem.frame_alloc().is_some());
    assert!(mem.frame_alloc().is_none());
}

#[test]
fn frame_allocator_test_takes_back_in_reverse() {
    let mut mem = memory(0x80000, 16);
    let (first, second) = frame_allocator_test(&mut mem).unwrap();
    let numbers: Vec<u64> = first.iter().map(|p| p.0).collect();
    assert_eq!(numbers, vec![0x80000, 0x80001, 0x80002, 0x80003, 0x80004]);
    let mut reversed = first.clone();
    reversed.reverse();
    assert_eq!(second, reversed);
    let next = mem.frame_alloc().unwrap();
    assert_eq!(next.ppn, PhysPageNum(0x80000));
}

#[test]
fn frame_allocator_test_needs_five_frames() {
    let mut mem = memory(0x80000, 4);
    assert!(frame_allocator_test(&mut mem).is_none());
    let ppns: Vec<u64> = (0..4).map(|_| mem.frame_alloc().unwrap().ppn.0).collect();
    assert_eq!(ppns.len(), 4);
}

#[test]
fn frame_allocator_range_starts_above_kernel() {
    let mut allocator = StackFrameAllocator::new();
    init_frame_allocator(&mut allocator, PhysAddr(0x8080_0001));
    let ppn = allocator.allocate().unwrap();
    assert_eq!(ppn, PhysPageNum(0x80801));
}

#[test]
fn page_table_maps_translates_and_unmaps() {
    let mut mem = memory(0x80000, 32);
    let mut pt = PageTable::new(&mut mem).unwrap();
    let frame = mem.frame_alloc().unwrap();
    let vpn = VirtPageNum(0x12345);
    assert!(pt.translate(&mem.phys, vpn).is_none());
    let flags = PTEFlags::R().union(PTEFlags::W()).union(PTEFlags::U());
    assert!(pt.map(&mut mem, vpn, frame.ppn, flags));
    let pte = pt.translate(&mem.phys, vpn).unwrap();
    assert!(pte.is_valid());
    assert_eq!(pte.ppn(), frame.ppn);
    assert!(pte.readable() && pte.writable() && !pte.executable());
    let pa = pt.translate_va(&mem.phys, VirtAddr(0x1234_5678)).unwrap();
    assert_eq!(pa, PhysAddr((frame.ppn.0 << 12) | 0x678));
    pt.unmap(&mut mem, vpn);
    match pt.translate(&mem.phys, vpn) {
        Some(e) => assert!(!e.is_valid()),
        None => {},
    }
}

#[test]
fn unmapped_entry_reads_zero() {
    let mut mem = memory(0x80000, 32);
    let mut pt = PageTable::new(&mut mem).unwrap();
    let frame = mem.frame_alloc().unwrap();
    let vpn = VirtPageNum(0x42);
    assert!(pt.map(&mut mem, vpn, frame.ppn, PTEFlags::R()));
    pt.unmap(&mut mem, vpn);
    assert_eq!(pt.translate(&mem.phys, vpn).unwrap().bits, 0);
}

#[test]
fn page_table_token_selects_root() {
    let mut mem = memory(0x80000, 8);
    let pt = PageTable::new(&mut mem).unwrap();
    let token = pt.token();
    assert_eq!(token >> 60, 8);
    assert_eq!(token & 0xfff_ffff_ffff, 0x80000);
    let again = PageTable::from_token(token);
    assert_eq!(again.token(), token);
}

#[test]
fn recycle_allocator_reuses_last_freed_number() {
    let mut a = RecycleAllocator::new();
    assert_eq!(a.allocate(), 0);
    assert_eq!(a.allocate(), 1);
    assert_eq!(a.allocate(), 2);
    a.dealloc(1);
    a.dealloc(0);
    assert_eq!(a.allocate(), 0);
    assert_eq!(a.allocate(), 1);
    assert_eq!(a.allocate(), 3);
    assert!(a.can_allocate());
}

#[test]
fn pids_are_handed_out_in_order() {
    let mut pids = RecycleAllocator::new();
    assert_eq!(pid_alloc(&mut pids).0, 0);
    assert_eq!(pid_alloc(&mut pids).0, 1);
}

#[test]
fn kernel_stacks_sit_below_trampoline_with_guard_pages() {
    assert_eq!(kernel_stack_position(0), (0xffff_ffff_ffff_d000, 0xffff_ffff_ffff_f000));
    assert_eq!(kernel_stack_position(1), (0xffff_ffff_ffff_a000, 0xffff_ffff_ffff_c000));
    let (bottom0, _) = kernel_stack_position(0);
    let (_, top1) = kernel_stack_position(1);
    assert_eq!(bottom0 - top1, 0x1000);
}

#[test]
fn flag_bits_follow_sv39() {
    assert_eq!(PTEFlags::G().bits(), 0x20);
    assert_eq!(PTEFlags::A().bits(), 0x40);
    assert_eq!(PTEFlags::D().bits(), 0x80);
    let all = PTEFlags::G().union(PTEFlags::A()).union(PTEFlags::D());
    assert_eq!(all.intersection(PTEFlags::D()).bits(), 0x80);
}

#[test]
fn memory_reads_what_was_written() {
    let mut phys = PhysMem::new(PhysPageNum(0x80400), 2);
    assert_eq!(phys.first_ppn(), PhysPageNum(0x80400));
    assert_eq!(phys.pages(), 2);
    phys.write_byte(PhysPageNum(0x80401), 7, 0xab);
    assert_eq!(phys.read_pa(PhysAddr::from_u64(0x8040_1007)), 0xab);
    assert_eq!(phys.read_pa(PhysAddr::from_u64(0x8040_0007)), 0);
    assert_eq!(VirtPageNum::from_va(VirtAddr::from_u64(0x5000)), VirtPageNum(5));
}
