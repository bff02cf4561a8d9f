use os::address::{PhysAddr, PhysPageNum, VirtAddr, VirtPageNum};
use os::frame_allocator::{Memory, StackFrameAllocator};
use os::elf::accepts_header;
use os::id::RecycleAllocator;
use os::loader::{get_app_data, get_app_data_by_name, get_num_app, parse_app_names, path_to_name, AppTable};
use os::memory_set::{remap_test, KernelLayout, MemorySet};
use os::mm::{copy_to_user, init, read_virtaddr};
use os::phys_mem::PhysMem;
use os::syscall::{sys_exec, sys_exit, sys_fork, sys_mmap, sys_munmap, sys_sbrk, sys_spawn, sys_yield};
use os::task::{TaskControlBlock, TaskStatus};
use os::trap::{app_init_context, fork_child_context};

const TRAMPOLINE_CODE: PhysAddr = PhysAddr(0x8020_1000);
const SSTATUS: u64 = 0x8000_0000_0000_6122;
const HANDLER: u64 = 0x8020_3000;

fn memory(first: u64, pages: usize) -> Memory {
    let phys = PhysMem::new(PhysPageNum(first), pages);
    let mut allocator = StackFrameAllocator::new();
    allocator.init(PhysPageNum(first), PhysPageNum(first + pages as u64));
    Memory { allocator, phys }
}

/// A 64-bit RISC-V executable with one LOAD segment holding `code` at `vaddr`.
fn tiny_elf(entry: u64, vaddr: u64, code: &[u8], flags: u32) -> Vec<u8> {
    let mut v: Vec<u8> = Vec::with_capacity(256);
    v.extend_from_slice(&[0x7f, b'E', b'L', b'F', 2, 1, 1, 0, 0, 0, 0, 0, 0, 0, 0, 0]);
    v.extend_from_slice(&2u16.to_le_bytes());
    v.extend_from_slice(&0xf3u16.to_le_bytes());
    v.extend_from_slice(&1u32.to_le_bytes());
    v.extend_from_slice(&entry.to_le_bytes());
    v.extend_from_slice(&64u64.to_le_bytes());
    v.extend_from_slice(&0u64.to_le_bytes());
    v.extend_from_slice(&0u32.to_le_bytes());
    v.extend_from_slice(&64u16.to_le_bytes());
    v.extend_from_slice(&56u16.to_le_bytes());
    v.extend_from_slice(&1u16.to_le_bytes());
    v.extend_from_slice(&64u16.to_le_bytes());
    v.extend_from_slice(&0u16.to_le_bytes());
    v.extend_from_slice(&0u16.to_le_bytes());
    assert_eq!(v.len(), 64);
    v.extend_from_slice(&1u32.to_le_bytes());
    v.extend_from_slice(&flags.to_le_bytes());
    v.extend_from_slice(&120u64.to_le_bytes());
    v.extend_from_slice(&vaddr.to_le_bytes());
    v.extend_from_slice(&vaddr.to_le_bytes());
    v.extend_from_slice(&(code.len() as u64).to_le_bytes());
    v.extend_from_slice(&(code.len() as u64).to_le_bytes());
    v.extend_from_slice(&0x1000u64.to_le_bytes());
    assert_eq!(v.len(), 120);
    v.extend_from_slice(code);
    v
}

fn first_app() -> Vec<u8> {
    tiny_elf(0x10000, 0x10000, &[0x13, 0x05, 0x10, 0x00], 5)
}

fn second_app() -> Vec<u8> {
    tiny_elf(0x20004, 0x20000, &[0x73, 0x00, 0x00, 0x00, 0x6f, 0x00, 0x00, 0x00], 5)
}

fn apps() -> AppTable {
    AppTable { names: vec![b"first".to_vec(), b"second".to_vec()], data: vec![first_app(), second_app()] }
}

struct World {
    mem: Memory,
    kernel_space: MemorySet,
    pids: RecycleAllocator,
    kstacks: RecycleAllocator,
}

fn world() -> World {
    let mut mem = memory(0x80000, 256);
    let kernel_space = MemorySet::new_bare(&mut mem).unwrap();
    World { mem, kernel_space, pids: RecycleAllocator::new(), kstacks: RecycleAllocator::new() }
}

fn start(w: &mut World, elf: &[u8]) -> (TaskControlBlock, u64) {
    TaskControlBlock::new(elf, &mut w.mem, &mut w.kernel_space, &mut w.pids, &mut w.kstacks, TRAMPOLINE_CODE, SSTATUS, HANDLER).unwrap()
}

#[test]
fn from_elf_lays_out_segments_stack_and_trap_page() {
    let mut mem = memory(0x80000, 64);
    let elf = first_app();
    let (ms, sp, entry) = MemorySet::from_elf(&mut mem, &elf, TRAMPOLINE_CODE).unwrap();
    assert_eq!(entry, 0x10000);
    assert_eq!(sp, 0x14000);
    let code = ms.translate(&mem.phys, VirtPageNum(0x10)).unwrap();
    assert!(code.is_valid() && code.readable() && code.executable() && !code.writable());
    assert_eq!(code.flags().bits & 0x10, 0x10);
    assert_eq!(mem.phys.read_byte(code.ppn(), 0), 0x13);
    assert_eq!(mem.phys.read_byte(code.ppn(), 3), 0x00);
    assert_eq!(mem.phys.read_byte(code.ppn(), 4), 0x00);
    assert!(ms.translate(&mem.phys, VirtPageNum(0x11)).map_or(true, |e| !e.is_valid()));
    for vpn in [0x12u64, 0x13] {
        let e = ms.translate(&mem.phys, VirtPageNum(vpn)).unwrap();
        assert!(e.is_valid() && e.readable() && e.writable() && !e.executable());
    }
    let trap = ms.translate(&mem.phys, VirtPageNum(0x7ff_fffe)).unwrap();
    assert!(trap.is_valid() && trap.writable() && trap.flags().bits & 0x10 == 0);
    let tramp = ms.translate(&mem.phys, VirtPageNum(0x7ff_ffff)).unwrap();
    assert_eq!(tramp.ppn(), PhysPageNum(0x80201));
    assert!(tramp.readable() && tramp.executable() && !tramp.writable());
    assert_eq!(ms.area_bounds(VirtPageNum(0x10)), Some((0, VirtPageNum(0x10), VirtPageNum(0x11))));
    assert_eq!(ms.area_bounds(VirtPageNum(0x12)), Some((1, VirtPageNum(0x12), VirtPageNum(0x14))));
    assert_eq!(ms.area_bounds(VirtPageNum(0x14)), Some((2, VirtPageNum(0x14), VirtPageNum(0x14))));
}

#[test]
fn headers_without_magic_or_class_are_not_accepted() {
    let good = first_app();
    assert!(accepts_header(&good));
    let mut no_magic = good.clone();
    no_magic[1] = b'X';
    assert!(!accepts_header(&no_magic));
    let mut no_class = good.clone();
    no_class[4] = 3;
    assert!(!accepts_header(&no_class));
    assert!(!accepts_header(&vec![0u8; 10]));
    assert!(!accepts_header(&good[..40]));
}

#[test]
fn from_elf_takes_files_at_any_address() {
    let mut mem = memory(0x80000, 64);
    for shift in 1..8usize {
        let mut buf = vec![0u8; shift];
        buf.extend_from_slice(&first_app());
        let (ms, sp, entry) = MemorySet::from_elf(&mut mem, &buf[shift..], TRAMPOLINE_CODE).unwrap();
        assert_eq!((sp, entry), (0x14000, 0x10000));
        let code = ms.translate(&mem.phys, VirtPageNum(0x10)).unwrap();
        assert_eq!(mem.phys.read_byte(code.ppn(), 0), 0x13);
        assert_eq!(mem.phys.read_byte(code.ppn(), 2), 0x10);
    }
}

#[test]
fn from_elf_refuses_misaligned_program_headers() {
    let mut mem = memory(0x80000, 64);
    let mut elf = first_app();
    elf[32..40].copy_from_slice(&65u64.to_le_bytes());
    assert!(MemorySet::from_elf(&mut mem, &elf, TRAMPOLINE_CODE).is_none());
    let mut elf = first_app();
    elf[54..56].copy_from_slice(&60u16.to_le_bytes());
    elf.extend_from_slice(&[0u8; 8]);
    assert!(MemorySet::from_elf(&mut mem, &elf, TRAMPOLINE_CODE).is_none());
}

#[test]
fn new_process_starts_at_the_user_stack_top() {
    let mut w = world();
    let (t, entry) = start(&mut w, &first_app());
    assert_eq!(entry, 0x10000);
    assert_eq!(t.pid.0, 0);
    assert_eq!(t.inner.base_size, 0x14000);
    assert_eq!(t.inner.heap_bottom, 0x14000);
    assert_eq!(t.inner.program_brk, 0x14000);
    assert_eq!(t.inner.priority, 16);
    assert_eq!(t.inner.task_status, TaskStatus::Ready);
    assert!(t.inner.parent.is_none());
    assert_eq!(t.kernel_stack.get_top(), 0xffff_ffff_ffff_f000);
    let trap = t.inner.memory_set.translate(&w.mem.phys, VirtPageNum(0x7ff_fffe)).unwrap();
    assert_eq!(trap.ppn(), t.inner.trap_cx_ppn);
    let kstack = w.kernel_space.translate(&w.mem.phys, VirtAddr::from_u64(0xffff_ffff_ffff_d000).floor()).unwrap();
    assert!(kstack.is_valid() && kstack.writable());
    let (second, _) = start(&mut w, &second_app());
    assert_eq!(second.pid.0, 1);
    assert_eq!(second.kernel_stack.get_top(), 0xffff_ffff_ffff_c000);
}

#[test]
fn mmap_then_munmap() {
    let mut w = world();
    let (mut t, _) = start(&mut w, &first_app());
    assert_eq!(sys_mmap(&mut t.inner, &mut w.mem, 0x20000, 0x1800, 3), 0);
    for vpn in [0x20u64, 0x21] {
        let e = t.inner.memory_set.translate(&w.mem.phys, VirtPageNum(vpn)).unwrap();
        assert!(e.is_valid() && e.readable() && e.writable() && !e.executable());
        assert_eq!(e.flags().bits & 0x10, 0x10);
    }
    assert_eq!(sys_mmap(&mut t.inner, &mut w.mem, 0x21000, 0x1000, 1), -1);
    assert_eq!(sys_mmap(&mut t.inner, &mut w.mem, 0x30000, 0x1000, 8), -1);
    assert_eq!(sys_mmap(&mut t.inner, &mut w.mem, 0x30000, 0x1000, 0), -1);
    assert_eq!(sys_mmap(&mut t.inner, &mut w.mem, 0x30010, 0x1000, 1), -1);
    assert_eq!(sys_mmap(&mut t.inner, &mut w.mem, 0x30000, 0, 1), -1);
    assert_eq!(sys_munmap(&mut t.inner, &mut w.mem, 0x20000, 0x1000), -1);
    assert_eq!(sys_munmap(&mut t.inner, &mut w.mem, 0x20000, 0x1800), 0);
    assert!(t.inner.memory_set.translate(&w.mem.phys, VirtPageNum(0x20)).map_or(true, |e| !e.is_valid()));
    assert_eq!(sys_munmap(&mut t.inner, &mut w.mem, 0x20000, 0x1800), -1);
    assert_eq!(sys_mmap(&mut t.inner, &mut w.mem, 0x20000, 0x1800, 7), 0);
}

#[test]
fn sbrk_grows_and_shrinks_the_heap() {
    let mut w = world();
    let (mut t, _) = start(&mut w, &first_app());
    assert_eq!(sys_sbrk(&mut t.inner, &mut w.mem, 0x1000), 0x14000);
    assert_eq!(t.inner.program_brk, 0x15000);
    let e = t.inner.memory_set.translate(&w.mem.phys, VirtPageNum(0x14)).unwrap();
    assert!(e.is_valid() && e.writable());
    assert_eq!(sys_sbrk(&mut t.inner, &mut w.mem, 0x10), 0x15000);
    assert_eq!(sys_sbrk(&mut t.inner, &mut w.mem, -0x1010), 0x15010);
    assert_eq!(t.inner.program_brk, 0x14000);
    assert!(t.inner.memory_set.translate(&w.mem.phys, VirtPageNum(0x14)).map_or(true, |e| !e.is_valid()));
    assert_eq!(sys_sbrk(&mut t.inner, &mut w.mem, -1), -1);
    assert_eq!(t.inner.program_brk, 0x14000);
    assert_eq!(sys_sbrk(&mut t.inner, &mut w.mem, 0), 0x14000);
    assert_eq!(t.inner.program_brk, 0x14000);
}

#[test]
fn fork_copies_the_address_space() {
    let mut w = world();
    let (mut parent, _) = start(&mut w, &first_app());
    let token = parent.inner.get_user_token();
    assert_eq!(copy_to_user(&mut w.mem.phys, token, 0x13ff0, b"stack"), Ok(()));
    let (pid, child) = sys_fork(&mut parent, &mut w.mem, &mut w.kernel_space, &mut w.pids, &mut w.kstacks, TRAMPOLINE_CODE);
    let child = child.unwrap();
    assert_eq!(pid, 1);
    assert_eq!(child.pid.0, 1);
    assert_eq!(child.inner.parent, Some(0));
    assert_eq!(parent.inner.children, vec![1]);
    assert_eq!(child.inner.base_size, parent.inner.base_size);
    assert_eq!(child.inner.priority, 16);
    let child_token = child.inner.get_user_token();
    assert_ne!(child_token, token);
    for (i, b) in b"stack".iter().enumerate() {
        assert_eq!(read_virtaddr(&w.mem.phys, child_token, 0x13ff0 + i as u64), Ok(*b as i64));
    }
    let pc = parent.inner.memory_set.translate(&w.mem.phys, VirtPageNum(0x13)).unwrap();
    let cc = child.inner.memory_set.translate(&w.mem.phys, VirtPageNum(0x13)).unwrap();
    assert_ne!(pc.ppn(), cc.ppn());
    assert_eq!(copy_to_user(&mut w.mem.phys, child_token, 0x13ff0, b"CHILD"), Ok(()));
    assert_eq!(read_virtaddr(&w.mem.phys, token, 0x13ff0), Ok(b's' as i64));
    assert_ne!(child.inner.trap_cx_ppn, parent.inner.trap_cx_ppn);
    let pf = parent.inner.trap_cx_ppn;
    let cf = child.inner.trap_cx_ppn;
    assert_eq!(w.mem.phys.read_word(cf, 10), 0);
    assert_eq!(w.mem.phys.read_word(cf, 35), child.kernel_stack.get_top());
    assert_eq!(w.mem.phys.read_word(cf, 33), w.mem.phys.read_word(pf, 33));
    assert_eq!(w.mem.phys.read_word(cf, 2), w.mem.phys.read_word(pf, 2));
}

#[test]
fn new_process_gets_its_trap_context() {
    let mut w = world();
    let (t, entry) = start(&mut w, &first_app());
    let f = t.inner.trap_cx_ppn;
    assert_eq!(w.mem.phys.read_word(f, 2), t.inner.base_size);
    assert_eq!(w.mem.phys.read_word(f, 10), 0);
    assert_eq!(w.mem.phys.read_word(f, 32), SSTATUS & !0x100);
    assert_eq!(w.mem.phys.read_word(f, 33), entry);
    assert_eq!(w.mem.phys.read_word(f, 34), w.kernel_space.token());
    assert_eq!(w.mem.phys.read_word(f, 35), t.kernel_stack.get_top());
    assert_eq!(w.mem.phys.read_word(f, 36), HANDLER);
}

#[test]
fn exec_replaces_the_program() {
    let mut w = world();
    let (mut t, _) = start(&mut w, &first_app());
    let token = t.inner.get_user_token();
    assert_eq!(copy_to_user(&mut w.mem.phys, token, 0x13000, b"second\0"), Ok(()));
    let apps = apps();
    let (r, started) = sys_exec(&mut t, &mut w.mem, &w.kernel_space, &apps, 0x13000, TRAMPOLINE_CODE, SSTATUS, HANDLER);
    assert_eq!(r, 0);
    assert_eq!(started, Some((0x20004, 0x24000)));
    assert_eq!(t.inner.base_size, 0x24000);
    assert_eq!(t.pid.0, 0);
    assert!(t.inner.memory_set.translate(&w.mem.phys, VirtPageNum(0x10)).map_or(true, |e| !e.is_valid()));
    let code = t.inner.memory_set.translate(&w.mem.phys, VirtPageNum(0x20)).unwrap();
    assert_eq!(w.mem.phys.read_byte(code.ppn(), 4), 0x6f);
}

#[test]
fn exec_of_unknown_or_unreadable_name_fails() {
    let mut w = world();
    let (mut t, _) = start(&mut w, &first_app());
    let token = t.inner.get_user_token();
    assert_eq!(copy_to_user(&mut w.mem.phys, token, 0x13000, b"third\0"), Ok(()));
    let apps = apps();
    assert_eq!(sys_exec(&mut t, &mut w.mem, &w.kernel_space, &apps, 0x13000, TRAMPOLINE_CODE, SSTATUS, HANDLER), (-1, None));
    assert_eq!(sys_exec(&mut t, &mut w.mem, &w.kernel_space, &apps, 0x50000, TRAMPOLINE_CODE, SSTATUS, HANDLER), (-1, None));
    assert_eq!(t.inner.base_size, 0x14000);
}

#[test]
fn spawn_starts_a_child_from_an_application() {
    let mut w = world();
    let (mut parent, _) = start(&mut w, &first_app());
    parent.inner.priority = 7;
    let token = parent.inner.get_user_token();
    assert_eq!(copy_to_user(&mut w.mem.phys, token, 0x13000, b"second\0"), Ok(()));
    let apps = apps();
    let (pid, made) = sys_spawn(&mut parent, &mut w.mem, &mut w.kernel_space, &mut w.pids, &mut w.kstacks, &apps, 0x13000, TRAMPOLINE_CODE, SSTATUS, HANDLER);
    let (child, entry) = made.unwrap();
    assert_eq!(pid, 1);
    assert_eq!(entry, 0x20004);
    assert_eq!(child.inner.parent, Some(0));
    assert_eq!(child.inner.priority, 7);
    assert_eq!(child.inner.heap_bottom, 0x24000);
    assert_eq!(parent.inner.children, vec![1]);
}

#[test]
fn spawn_refuses_empty_and_unknown_names() {
    let mut w = world();
    let (mut parent, _) = start(&mut w, &first_app());
    let token = parent.inner.get_user_token();
    assert_eq!(copy_to_user(&mut w.mem.phys, token, 0x13000, b"\0nobody\0"), Ok(()));
    let apps = apps();
    let (r, made) = sys_spawn(&mut parent, &mut w.mem, &mut w.kernel_space, &mut w.pids, &mut w.kstacks, &apps, 0x13000, TRAMPOLINE_CODE, SSTATUS, HANDLER);
    assert_eq!(r, -1);
    assert!(made.is_none());
    let (r, made) = sys_spawn(&mut parent, &mut w.mem, &mut w.kernel_space, &mut w.pids, &mut w.kstacks, &apps, 0x13001, TRAMPOLINE_CODE, SSTATUS, HANDLER);
    assert_eq!(r, -1);
    assert!(made.is_none());
    assert!(parent.inner.children.is_empty());
}

#[test]
fn exit_makes_a_zombie_and_hands_over_children() {
    let mut w = world();
    let (mut init, _) = start(&mut w, &first_app());
    let (mut t, _) = start(&mut w, &first_app());
    init.inner.children = vec![1];
    t.inner.children = vec![3, 4];
    let mut parents = vec![Some(5), Some(5)];
    let children = sys_exit(&mut t.inner, &mut init.inner, &mut parents, &mut w.mem, 5, -2);
    assert_eq!(children, vec![3, 4]);
    assert_eq!(parents, vec![Some(0), Some(0)]);
    assert_eq!(t.inner.task_status, TaskStatus::Zombie);
    assert_eq!(t.inner.exit_code, -2);
    assert!(t.inner.children.is_empty());
    assert_eq!(init.inner.children, vec![1, 3, 4]);
}

#[test]
fn yield_makes_the_task_ready() {
    let mut w = world();
    let (mut t, _) = start(&mut w, &first_app());
    t.inner.task_status = TaskStatus::Running;
    assert_eq!(sys_yield(&mut t.inner), 0);
    assert_eq!(t.inner.task_status, TaskStatus::Ready);
}

fn layout() -> KernelLayout {
    KernelLayout {
        stext: 0x8020_0000,
        etext: 0x8020_3000,
        srodata: 0x8020_3000,
        erodata: 0x8020_5000,
        sdata: 0x8020_5000,
        edata: 0x8020_6000,
        sbss_with_stack: 0x8020_6000,
        ebss: 0x8020_8000,
        ekernel: 0x87ff_0000,
        strampoline: 0x8020_1000,
    }
}

#[test]
fn kernel_space_passes_remap_test() {
    let mut mem = Memory { allocator: StackFrameAllocator::new(), phys: PhysMem::new(PhysPageNum(0x87ff0), 16) };
    let ks = init(&mut mem, layout()).unwrap();
    assert!(remap_test(&ks, &mem.phys, layout()));
    let text = ks.translate(&mem.phys, VirtPageNum(0x80201)).unwrap();
    assert_eq!(text.ppn(), PhysPageNum(0x80201));
    assert!(text.readable() && text.executable() && !text.writable());
    let heap = ks.translate(&mem.phys, VirtPageNum(0x87ff5)).unwrap();
    assert!(heap.writable() && !heap.executable());
    assert!(ks.translate(&mem.phys, VirtPageNum(0x80208)).map_or(true, |e| !e.is_valid()));
}

#[test]
fn remap_test_notices_a_writable_text() {
    let mut mem = memory(0x80000, 32);
    let mut ks = MemorySet::new_bare(&mut mem).unwrap();
    assert!(!remap_test(&ks, &mem.phys, layout()));
    let rwx = os::memory_set::MapPermission::R().union(os::memory_set::MapPermission::W()).union(os::memory_set::MapPermission::X());
    assert!(ks.mmap(&mut mem, VirtPageNum(0x80200), VirtPageNum(0x80208), rwx));
    assert!(!remap_test(&ks, &mem.phys, layout()));
}

#[test]
fn app_names_come_from_the_name_table() {
    let names = parse_app_names(b"initproc\0shell\0rest", 2).unwrap();
    assert_eq!(names, vec![b"initproc".to_vec(), b"shell".to_vec()]);
    assert!(parse_app_names(b"initproc\0shell", 2).is_none());
    let table = AppTable { names, data: vec![vec![1, 2], vec![3]] };
    assert_eq!(get_num_app(&table), 2);
    assert_eq!(get_app_data(&table, 1), &[3u8][..]);
    assert_eq!(get_app_data_by_name(&table, b"shell"), Some(&[3u8][..]));
    assert_eq!(get_app_data_by_name(&table, b"she"), None);
}

#[test]
fn system_calls_are_counted() {
    let mut w = world();
    let (mut t, _) = start(&mut w, &first_app());
    assert!(t.inner.syscall_times.iter().all(|c| *c == 0));
    t.inner.record_syscall(169);
    t.inner.record_syscall(169);
    t.inner.record_syscall(64);
    t.inner.record_syscall(9999);
    assert_eq!(t.inner.get_syscall_times(169), 2);
    assert_eq!(t.inner.get_syscall_times(64), 1);
    assert_eq!(t.inner.get_syscall_times(63), 0);
    t.inner.syscall_times[1] = u32::MAX;
    t.inner.record_syscall(1);
    assert_eq!(t.inner.get_syscall_times(1), u32::MAX);
}

#[test]
fn kernel_space_fits_in_the_frames_its_tables_need() {
    // 13 frames after the image: the root, two tables for the trampoline and two for each of
    // the five areas, which each fall in one last-level table
    let mut small = layout();
    small.ekernel = 0x87ff_3000;
    let mut mem = Memory { allocator: StackFrameAllocator::new(), phys: PhysMem::new(PhysPageNum(0x87ff3), 13) };
    let ks = init(&mut mem, small).unwrap();
    let top = ks.translate(&mem.phys, VirtPageNum(0x87fff)).unwrap();
    assert_eq!(top.ppn(), PhysPageNum(0x87fff));
    assert!(top.is_valid() && top.writable());
}

#[test]
fn kernel_space_needs_frames() {
    let mut tight = layout();
    tight.ekernel = 0x87ff_e000;
    let mut mem = Memory { allocator: StackFrameAllocator::new(), phys: PhysMem::new(PhysPageNum(0x87ffe), 2) };
    assert!(init(&mut mem, tight).is_none());
    assert!(mem.frame_alloc().is_none());
}

#[test]
fn app_names_need_a_zero_each() {
    assert_eq!(parse_app_names(b"a\0b\0", 2).unwrap().len(), 2);
    assert!(parse_app_names(b"a\0b\0", 3).is_none());
    assert_eq!(parse_app_names(b"", 0).unwrap().len(), 0);
}

#[test]
fn trap_context_starts_the_program_in_user_mode() {
    let mut phys = PhysMem::new(PhysPageNum(0x80000), 2);
    phys.write_word(PhysPageNum(0x80001), 0, 7);
    phys.write_word(PhysPageNum(0x80001), 10, 9);
    app_init_context(&mut phys, PhysPageNum(0x80001), 0x1000, 0x5000, 0x1_0122, 0x8000_0000_0008_0000, 0xffff_ffff_ffff_d000, 0x8020_2000);
    assert_eq!(phys.read_word(PhysPageNum(0x80001), 0), 0);
    assert_eq!(phys.read_word(PhysPageNum(0x80001), 2), 0x5000);
    assert_eq!(phys.read_word(PhysPageNum(0x80001), 10), 0);
    assert_eq!(phys.read_word(PhysPageNum(0x80001), 32), 0x1_0022);
    assert_eq!(phys.read_word(PhysPageNum(0x80001), 33), 0x1000);
    assert_eq!(phys.read_word(PhysPageNum(0x80001), 34), 0x8000_0000_0008_0000);
    assert_eq!(phys.read_word(PhysPageNum(0x80001), 35), 0xffff_ffff_ffff_d000);
    assert_eq!(phys.read_word(PhysPageNum(0x80001), 36), 0x8020_2000);
    fork_child_context(&mut phys, PhysPageNum(0x80001), 0xffff_ffff_ffff_a000);
    assert_eq!(phys.read_word(PhysPageNum(0x80001), 10), 0);
    assert_eq!(phys.read_word(PhysPageNum(0x80001), 35), 0xffff_ffff_ffff_a000);
    assert_eq!(phys.read_word(PhysPageNum(0x80001), 33), 0x1000);
    assert_eq!(phys.read_word(PhysPageNum(0x80000), 0), 0);
}

#[test]
fn first_process_adopts_orphans() {
    let mut w = world();
    let (mut init, _) = start(&mut w, &first_app());
    let (orphan, _) = start(&mut w, &first_app());
    init.inner.children.push(5);
    init.inner.adopt(&vec![orphan.pid.0, 9]);
    assert_eq!(init.inner.children, vec![5, orphan.pid.0, 9]);
}

#[test]
fn path_bytes_are_read_as_characters() {
    assert_eq!(path_to_name(b"shell"), b"shell".to_vec());
    assert_eq!(path_to_name(&[0x61, 0xe9]), vec![0x61, 0xc3, 0xa9]);
    assert_eq!(path_to_name(&[0xc3, 0xa9]), vec![0xc3, 0x83, 0xc2, 0xa9]);
}

#[test]
fn mmap_gives_zeroed_frames_and_munmap_gives_them_back() {
    let mut w = world();
    let (mut t, _) = start(&mut w, &first_app());
    assert_eq!(sys_mmap(&mut t.inner, &mut w.mem, 0x20000, 0x1000, 3), 0);
    let e = t.inner.memory_set.translate(&w.mem.phys, VirtPageNum(0x20)).unwrap();
    for off in [0u64, 1, 0x800, 0xfff] {
        assert_eq!(w.mem.phys.read_byte(e.ppn(), off), 0);
    }
    assert_eq!(sys_munmap(&mut t.inner, &mut w.mem, 0x20000, 0x1000), 0);
    let again = w.mem.frame_alloc().unwrap();
    assert_eq!(again.ppn, e.ppn());
}

#[test]
fn from_elf_zeroes_memory_past_the_file_bytes() {
    let mut mem = memory(0x80000, 64);
    let mut elf = first_app();
    elf[104..112].copy_from_slice(&0x1800u64.to_le_bytes());
    let (ms, _, _) = MemorySet::from_elf(&mut mem, &elf, TRAMPOLINE_CODE).unwrap();
    let first = ms.translate(&mem.phys, VirtPageNum(0x10)).unwrap();
    assert_eq!(mem.phys.read_byte(first.ppn(), 0), 0x13);
    assert_eq!(mem.phys.read_byte(first.ppn(), 4), 0);
    let second = ms.translate(&mem.phys, VirtPageNum(0x11)).unwrap();
    assert!(second.is_valid());
    assert_eq!(mem.phys.read_byte(second.ppn(), 0x7ff), 0);
}

#[test]
fn from_elf_takes_a_bare_32_bit_header() {
    let mut mem = memory(0x80000, 64);
    let mut elf: Vec<u8> = vec![0x7f, b'E', b'L', b'F', 1, 1, 1, 0, 0, 0, 0, 0, 0, 0, 0, 0];
    elf.extend_from_slice(&2u16.to_le_bytes());
    elf.extend_from_slice(&0xf3u16.to_le_bytes());
    elf.extend_from_slice(&1u32.to_le_bytes());
    elf.extend_from_slice(&0x1000u32.to_le_bytes());
    elf.extend_from_slice(&0u32.to_le_bytes());
    elf.extend_from_slice(&0u32.to_le_bytes());
    elf.extend_from_slice(&0u32.to_le_bytes());
    elf.extend_from_slice(&52u16.to_le_bytes());
    elf.extend_from_slice(&32u16.to_le_bytes());
    elf.extend_from_slice(&0u16.to_le_bytes());
    elf.extend_from_slice(&40u16.to_le_bytes());
    elf.extend_from_slice(&0u16.to_le_bytes());
    elf.extend_from_slice(&0u16.to_le_bytes());
    assert_eq!(elf.len(), 52);
    assert!(accepts_header(&elf));
    let (_, _, entry) = MemorySet::from_elf(&mut mem, &elf, TRAMPOLINE_CODE).unwrap();
    assert_eq!(entry, 0x1000);
}
