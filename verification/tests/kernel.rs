use os_kernel::config::{MAX_SYSCALL_NUM, TRAMPOLINE};
use os_kernel::kernel::Kernel;
use os_kernel::loader::{bytes_eq, initproc_name_bytes, ProgramTable};
use os_kernel::mm::address::{VirtAddr, VirtPageNum};
use os_kernel::syscall::process::{
    exit_code_bytes, get_pa_from_va, sys_exec, sys_exit, sys_fork, sys_get_time, sys_getpid,
    sys_mmap, sys_munmap, sys_sbrk, sys_set_priority, sys_spawn, sys_task_info, sys_waitpid,
    sys_yield, task_info_bytes, wait_poll, TimeVal,
};
use os_kernel::task::context::{TaskContext, TrapContext, TRAP_RETURN};
use os_kernel::task::id::{kernel_stack_position, KernelStack, PidAllocator};
use os_kernel::task::manager::TaskManager;
use os_kernel::task::processor::Processor;
use os_kernel::task::task::{TaskControlBlock, TaskInfo, TaskStatus};
use os_kernel::task::{
    add_initproc, exit_current, get_current_task_ctx, get_current_task_id, get_current_task_info,
    get_current_task_status, insert_framed_area, run_tasks, set_current_task_info,
    suspend_current_and_run_next, un_map,
};

fn put16(v: &mut Vec<u8>, at: usize, x: u16) {
    v[at..at + 2].copy_from_slice(&x.to_le_bytes());
}

fn put32(v: &mut Vec<u8>, at: usize, x: u32) {
    v[at..at + 4].copy_from_slice(&x.to_le_bytes());
}

fn put64(v: &mut Vec<u8>, at: usize, x: u64) {
    v[at..at + 8].copy_from_slice(&x.to_le_bytes());
}

/// An image with the given entry point and segments `(vaddr, mem_size, flags, bytes)`.
fn image(entry: u64, segs: &[(u64, u64, u32, Vec<u8>)]) -> Vec<u8> {
    let mut v = vec![0u8; 64 + 56 * segs.len()];
    v[0] = 0x7f;
    v[1] = b'E';
    v[2] = b'L';
    v[3] = b'F';
    put64(&mut v, 24, entry);
    put64(&mut v, 32, 64);
    put16(&mut v, 54, 56);
    put16(&mut v, 56, segs.len() as u16);
    for (i, (vaddr, mem_size, flags, bytes)) in segs.iter().enumerate() {
        let base = 64 + 56 * i;
        let offset = v.len() as u64;
        put32(&mut v, base, 1);
        put32(&mut v, base + 4, *flags);
        put64(&mut v, base + 8, offset);
        put64(&mut v, base + 16, *vaddr);
        put64(&mut v, base + 32, bytes.len() as u64);
        put64(&mut v, base + 40, *mem_size);
        v.extend_from_slice(bytes);
    }
    v
}

/// The init program: two pages of code at 0x10000; its stack is the
/// pages 0x13 and 0x14, its heap starts at 0x15000.
fn init_image() -> Vec<u8> {
    image(0x10000, &[(0x10000, 0x2000, 5, vec![0x13, 0x37])])
}

const STACK: usize = 0x13000;
const HEAP: u64 = 0x15000;

/// A kernel in which the init process runs.
fn booted(frames: usize) -> Kernel {
    let mut k = Kernel::new(frames, 1);
    assert!(k.add_program(initproc_name_bytes(), init_image()));
    add_initproc(&mut k);
    assert!(!k.halted);
    assert_eq!(run_tasks(&mut k), Some(0));
    k
}

fn task(k: &Kernel, pid: usize) -> &TaskControlBlock {
    k.tasks[pid].as_ref().unwrap()
}

fn user_bytes(k: &Kernel, pid: usize, va: u64, len: usize) -> Vec<u8> {
    task(k, pid).memory_set.read_bytes(&k.frames, VirtAddr(va), len).unwrap()
}

fn queue(k: &mut Kernel) -> Vec<usize> {
    // the queue is read by taking it apart and putting it together again
    let mut out = Vec::new();
    while let Some(p) = k.manager.fetch() {
        out.push(p);
    }
    for p in &out {
        k.manager.add(*p);
    }
    out
}

#[test]
fn new_kernel_is_empty() {
    let k = Kernel::new(64, 1);
    assert_eq!(k.tasks.len(), 0);
    assert_eq!(k.time_us, 0);
    assert_eq!(k.get_time_us(), 0);
    assert!(!k.halted);
    assert!(k.processor.current.is_none());
    assert_eq!(k.manager.len(), 0);
    assert_eq!(k.frames.available(), 63);
    assert!(k.loader.get_app_data_by_name(&initproc_name_bytes()).is_none());
}

#[test]
fn init_program_name() {
    assert_eq!(initproc_name_bytes(), b"ch6b_initproc".to_vec());
}

#[test]
fn program_table_finds_the_first_of_a_name() {
    let mut t = ProgramTable::new();
    let a = image(0x10000, &[(0x10000, 0x1000, 5, vec![1])]);
    let b = image(0x20000, &[(0x20000, 0x1000, 5, vec![2])]);
    assert!(t.add(b"a".to_vec(), a.clone()));
    assert!(t.add(b"b".to_vec(), b.clone()));
    assert!(t.add(b"a".to_vec(), b.clone()));
    assert!(!t.add(b"c".to_vec(), vec![1, 2, 3]));
    assert_eq!(t.get_app_data_by_name(&b"a".to_vec()), Some(&a));
    assert_eq!(t.get_app_data_by_name(&b"b".to_vec()), Some(&b));
    assert_eq!(t.get_app_data_by_name(&b"c".to_vec()), None);
    assert_eq!(t.get_app_data_by_name(&b"".to_vec()), None);
    assert!(bytes_eq(&vec![1, 2], &vec![1, 2]));
    assert!(!bytes_eq(&vec![1, 2], &vec![1, 3]));
    assert!(!bytes_eq(&vec![1, 2], &vec![1]));
}

#[test]
fn add_program_refuses_bad_images() {
    let mut k = Kernel::new(64, 1);
    assert!(!k.add_program(b"bad".to_vec(), vec![0x7f, b'E', b'L', b'F']));
    assert!(k.loader.get_app_data_by_name(&b"bad".to_vec()).is_none());
    assert!(k.add_program(b"good".to_vec(), init_image()));
    assert_eq!(k.loader.get_app_data_by_name(&b"good".to_vec()), Some(&init_image()));
}

#[test]
fn init_process_is_made_ready() {
    let mut k = Kernel::new(64, 1);
    assert!(k.add_program(initproc_name_bytes(), init_image()));
    add_initproc(&mut k);
    assert!(!k.halted);
    assert_eq!(k.tasks.len(), 1);
    assert_eq!(queue(&mut k), vec![0]);
    assert!(k.processor.current.is_none());
    let t = task(&k, 0);
    assert_eq!(t.pid, 0);
    assert_eq!(t.task_status, TaskStatus::Ready);
    assert_eq!(t.parent, None);
    assert!(t.children.is_empty());
    assert_eq!(t.exit_code, 0);
    assert_eq!(t.base_size, HEAP);
    assert_eq!(t.heap_bottom, HEAP);
    assert_eq!(t.program_brk, HEAP);
    assert_eq!(t.fd_table, vec![Some(0), Some(1), Some(2)]);
    assert_eq!(t.trap_cx.sepc, 0x10000);
    assert_eq!(t.trap_cx.x[2], HEAP);
    assert_eq!(t.trap_cx.x[10], 0);
    assert_eq!(t.trap_cx.kernel_sp, TRAMPOLINE);
    assert_eq!(t.task_cx.ra, TRAP_RETURN);
    assert_eq!(t.task_cx.sp, TRAMPOLINE);
    assert_eq!(t.task_info.time, 0);
    assert!(t.task_info.syscall_times.iter().all(|c| *c == 0));
    assert_eq!(t.start_time, 0);
    let trap = t.memory_set.translate(&k.frames, VirtPageNum(0x7ff_fffe)).unwrap();
    assert_eq!(t.trap_cx_ppn, trap.ppn());
    assert_eq!(user_bytes(&k, 0, 0x10000, 3), vec![0x13, 0x37, 0]);
    // root, four nodes, two pages of code, two of stack, the trap context
    assert_eq!(k.frames.available(), 63 - 10);
}

#[test]
fn kernel_halts_when_the_init_process_does_not_fit() {
    let mut k = Kernel::new(10, 1);
    assert!(k.add_program(initproc_name_bytes(), init_image()));
    add_initproc(&mut k);
    assert!(k.halted);
    let mut k = Kernel::new(11, 1);
    assert!(k.add_program(initproc_name_bytes(), init_image()));
    add_initproc(&mut k);
    assert!(!k.halted);
}

#[test]
fn run_tasks_takes_the_head_of_the_queue() {
    let mut k = Kernel::new(64, 1);
    assert_eq!(run_tasks(&mut k), None);
    assert!(k.add_program(initproc_name_bytes(), init_image()));
    add_initproc(&mut k);
    assert_eq!(run_tasks(&mut k), Some(0));
    assert_eq!(k.processor.current, Some(0));
    assert_eq!(task(&k, 0).task_status, TaskStatus::Running);
    assert_eq!(k.manager.len(), 0);
}

#[test]
fn current_task_getters() {
    let mut k = Kernel::new(64, 1);
    assert!(get_current_task_info(&k).is_none());
    assert!(get_current_task_status(&k).is_none());
    assert!(get_current_task_ctx(&k).is_none());
    assert!(k.add_program(initproc_name_bytes(), init_image()));
    add_initproc(&mut k);
    run_tasks(&mut k);
    assert_eq!(get_current_task_id(&k), 0);
    assert_eq!(sys_getpid(&k), 0);
    assert_eq!(get_current_task_status(&k), Some(TaskStatus::Running));
    let cx = get_current_task_ctx(&k).unwrap();
    assert_eq!((cx.ra, cx.sp), (TRAP_RETURN, TRAMPOLINE));
    assert_eq!(get_current_task_info(&k).unwrap().time, 0);
}

#[test]
fn yield_alone_runs_the_same_task_again() {
    let mut k = booted(64);
    assert_eq!(sys_yield(&mut k), 0);
    assert_eq!(k.processor.current, Some(0));
    assert_eq!(task(&k, 0).task_status, TaskStatus::Running);
    assert_eq!(k.manager.len(), 0);
}

#[test]
fn fork_makes_a_ready_copy() {
    let mut k = booted(64);
    k.tasks[0].as_mut().unwrap().trap_cx.x[10] = 77;
    k.tasks[0].as_mut().unwrap().trap_cx.x[11] = 5;
    k.tasks[0].as_mut().unwrap().fd_table.push(Some(9));
    k.write_user(STACK, &vec![1, 2, 3]);
    let before = k.frames.available();
    assert_eq!(sys_fork(&mut k), 1);
    assert!(!k.halted);
    assert_eq!(k.tasks.len(), 2);
    assert_eq!(k.processor.current, Some(0));
    assert_eq!(queue(&mut k), vec![1]);
    assert_eq!(task(&k, 0).children, vec![1]);
    assert_eq!(task(&k, 0).trap_cx.x[10], 77);
    let c = task(&k, 1);
    assert_eq!(c.pid, 1);
    assert_eq!(c.parent, Some(0));
    assert!(c.children.is_empty());
    assert_eq!(c.task_status, TaskStatus::Ready);
    assert_eq!(c.trap_cx.x[10], 0);
    assert_eq!(c.trap_cx.x[11], 5);
    assert_eq!(c.trap_cx.x[2], HEAP);
    assert_eq!(c.trap_cx.sepc, 0x10000);
    assert_eq!(c.trap_cx.kernel_sp, kernel_stack_position(1).1);
    assert_eq!(c.task_cx.sp, kernel_stack_position(1).1);
    assert_eq!(c.fd_table, vec![Some(0), Some(1), Some(2), Some(9)]);
    assert_eq!((c.heap_bottom, c.program_brk, c.base_size), (HEAP, HEAP, HEAP));
    assert_eq!(c.exit_code, 0);
    assert_eq!(user_bytes(&k, 1, STACK as u64, 4), vec![1, 2, 3, 0]);
    assert_eq!(user_bytes(&k, 1, 0x10000, 2), vec![0x13, 0x37]);
    // the copy costs what the parent cost
    assert_eq!(k.frames.available(), before - 10);
    let own = c.memory_set.translate(&k.frames, VirtPageNum(0x13)).unwrap().ppn();
    let parents = task(&k, 0).memory_set.translate(&k.frames, VirtPageNum(0x13)).unwrap().ppn();
    assert_ne!(own, parents);
}

#[test]
fn forked_memory_is_independent() {
    let mut k = booted(64);
    assert_eq!(sys_sbrk(&mut k, 4096), HEAP as isize);
    k.write_user(HEAP as usize, &vec![0xaa]);
    assert_eq!(sys_fork(&mut k), 1);
    // the parent writes; the child keeps the old byte
    k.write_user(HEAP as usize, &vec![0xbb]);
    assert_eq!(user_bytes(&k, 0, HEAP, 1), vec![0xbb]);
    assert_eq!(user_bytes(&k, 1, HEAP, 1), vec![0xaa]);
    // the child runs and writes; the parent keeps its byte
    sys_yield(&mut k);
    assert_eq!(k.processor.current, Some(1));
    k.write_user(HEAP as usize + 1, &vec![0xcc]);
    assert_eq!(user_bytes(&k, 1, HEAP, 2), vec![0xaa, 0xcc]);
    assert_eq!(user_bytes(&k, 0, HEAP, 2), vec![0xbb, 0]);
}

#[test]
fn fork_halts_the_kernel_without_frames() {
    // the init process takes ten frames, a copy ten more
    let mut k = booted(21);
    assert_eq!(sys_fork(&mut k), 1);
    assert!(!k.halted);
    let mut k = booted(20);
    assert_eq!(sys_fork(&mut k), -1);
    assert!(k.halted);
}

#[test]
fn yield_goes_round_in_queue_order() {
    let mut k = booted(128);
    assert_eq!(sys_fork(&mut k), 1);
    assert_eq!(sys_fork(&mut k), 2);
    assert_eq!(sys_fork(&mut k), 3);
    assert_eq!(queue(&mut k), vec![1, 2, 3]);
    let mut order = vec![sys_getpid(&k)];
    for _ in 0..4 {
        assert_eq!(sys_yield(&mut k), 0);
        order.push(sys_getpid(&k));
    }
    // every task runs once before the first runs again
    assert_eq!(order, vec![0, 1, 2, 3, 0]);
    assert_eq!(queue(&mut k), vec![1, 2, 3]);
    assert_eq!(task(&k, 0).task_status, TaskStatus::Running);
    assert_eq!(task(&k, 1).task_status, TaskStatus::Ready);
    suspend_current_and_run_next(&mut k);
    assert_eq!(k.processor.current, Some(1));
    assert_eq!(queue(&mut k), vec![2, 3, 0]);
}

#[test]
fn exit_hands_children_to_the_init_process() {
    let mut k = booted(128);
    assert_eq!(sys_fork(&mut k), 1);
    sys_yield(&mut k);
    assert_eq!(sys_getpid(&k), 1);
    assert_eq!(sys_fork(&mut k), 2);
    assert_eq!(sys_fork(&mut k), 3);
    assert_eq!(task(&k, 1).children, vec![2, 3]);
    assert_eq!(task(&k, 2).parent, Some(1));
    let before = k.frames.available();
    sys_exit(&mut k, -7);
    let z = task(&k, 1);
    assert_eq!(z.task_status, TaskStatus::Zombie);
    assert_eq!(z.exit_code, -7);
    assert!(z.children.is_empty());
    assert!(z.fd_table.is_empty());
    assert_eq!(z.parent, Some(0));
    assert_eq!(z.memory_set.area_count(), 0);
    assert_eq!(z.memory_set.translate(&k.frames, VirtPageNum(0x10)), None);
    // the five pages are back, the five nodes of the page table are kept
    assert_eq!(k.frames.available(), before + 5);
    assert_eq!(task(&k, 0).children, vec![1, 2, 3]);
    assert_eq!(task(&k, 2).parent, Some(0));
    assert_eq!(task(&k, 3).parent, Some(0));
    // the queue was 0, 2, 3: the init process runs next
    assert_eq!(k.processor.current, Some(0));
    assert_eq!(queue(&mut k), vec![2, 3]);
}

#[test]
fn exit_of_the_last_task_leaves_the_processor_idle() {
    let mut k = booted(64);
    assert_eq!(sys_fork(&mut k), 1);
    sys_yield(&mut k);
    // the init process waits in the queue; take it out of the way
    assert_eq!(k.processor.current, Some(1));
    exit_current(&mut k, 3);
    assert!(k.processor.current.is_none());
    assert_eq!(task(&k, 1).task_status, TaskStatus::Zombie);
    assert_eq!(run_tasks(&mut k), Some(0));
    assert_eq!(run_tasks_when_idle(&mut k), None);
}

fn run_tasks_when_idle(k: &mut Kernel) -> Option<usize> {
    let cur = k.processor.current.take();
    let r = run_tasks(k);
    k.processor.current = cur;
    r
}

#[test]
fn waitpid_polls_and_reaps() {
    let mut k = booted(128);
    let ptr = STACK + 0x100;
    // no children at all
    assert_eq!(sys_waitpid(&mut k, -1, ptr), -1);
    assert_eq!(sys_fork(&mut k), 1);
    assert_eq!(sys_fork(&mut k), 2);
    // children, but none has exited
    assert_eq!(sys_waitpid(&mut k, -1, ptr), -2);
    assert_eq!(sys_waitpid(&mut k, 2, ptr), -2);
    // no such child
    assert_eq!(sys_waitpid(&mut k, 5, ptr), -1);
    assert_eq!(sys_waitpid(&mut k, 0, ptr), -1);
    assert_eq!(sys_waitpid(&mut k, -2, ptr), -1);
    sys_yield(&mut k);
    sys_yield(&mut k);
    assert_eq!(sys_getpid(&k), 2);
    sys_exit(&mut k, 0x0102_0304);
    assert_eq!(sys_getpid(&k), 0);
    // the first child has not exited
    assert_eq!(sys_waitpid(&mut k, 1, ptr), -2);
    let before = k.frames.available();
    k.write_user(ptr, &vec![0xff; 6]);
    assert_eq!(sys_waitpid(&mut k, -1, ptr), 2);
    assert_eq!(user_bytes(&k, 0, ptr as u64, 6), vec![4, 3, 2, 1, 0xff, 0xff]);
    assert!(k.tasks[2].is_none());
    assert_eq!(task(&k, 0).children, vec![1]);
    // the nodes of the page table are back in the pool
    assert_eq!(k.frames.available(), before + 5);
    // the same pid again: no such child any more
    assert_eq!(sys_waitpid(&mut k, 2, ptr), -1);
    assert_eq!(sys_waitpid(&mut k, -1, ptr), -2);
    // the pid is free for the next child
    assert_eq!(sys_fork(&mut k), 2);
    assert_eq!(task(&k, 0).children, vec![1, 2]);
}

#[test]
fn waitpid_writes_negative_exit_codes() {
    let mut k = booted(128);
    assert_eq!(sys_fork(&mut k), 1);
    sys_yield(&mut k);
    sys_exit(&mut k, -1);
    assert_eq!(sys_waitpid(&mut k, 1, STACK), 1);
    assert_eq!(user_bytes(&k, 0, STACK as u64, 4), vec![0xff; 4]);
    assert_eq!(exit_code_bytes(-2), vec![0xfe, 0xff, 0xff, 0xff]);
    assert_eq!(exit_code_bytes(258), vec![2, 1, 0, 0]);
}

#[test]
fn waitpid_takes_the_first_exited_child() {
    let mut k = booted(128);
    assert_eq!(sys_fork(&mut k), 1);
    assert_eq!(sys_fork(&mut k), 2);
    assert_eq!(sys_fork(&mut k), 3);
    sys_yield(&mut k);
    sys_yield(&mut k);
    sys_exit(&mut k, 20);
    assert_eq!(sys_getpid(&k), 3);
    sys_exit(&mut k, 30);
    assert_eq!(sys_getpid(&k), 0);
    assert_eq!(sys_waitpid(&mut k, -1, STACK), 2);
    assert_eq!(user_bytes(&k, 0, STACK as u64, 1), vec![20]);
    assert_eq!(sys_waitpid(&mut k, -1, STACK), 3);
    assert_eq!(user_bytes(&k, 0, STACK as u64, 1), vec![30]);
    assert_eq!(sys_waitpid(&mut k, -1, STACK), -2);
}

#[test]
fn mmap_checks_its_arguments() {
    let mut k = booted(64);
    let before = k.frames.available();
    assert_eq!(sys_mmap(&mut k, 0x20000, 0, 3), -1);
    assert_eq!(sys_mmap(&mut k, 0x20000, 4096, 0), -1);
    assert_eq!(sys_mmap(&mut k, 0x20000, 4096, 8), -1);
    assert_eq!(sys_mmap(&mut k, 0x20000, 4096, 0x13), -1);
    assert_eq!(sys_mmap(&mut k, 0x20001, 4096, 3), -1);
    assert_eq!(sys_mmap(&mut k, 0x7f_ffff_f000, 0x2000, 3), -1);
    // pages that are mapped already: code, stack, trap context
    assert_eq!(sys_mmap(&mut k, 0x11000, 4096, 3), -1);
    assert_eq!(sys_mmap(&mut k, 0x12000, 0x2000, 3), -1);
    assert_eq!(sys_mmap(&mut k, 0x7f_ffff_e000, 4096, 3), -1);
    assert_eq!(sys_mmap(&mut k, 0, 4096, 3), -1);
    assert_eq!(k.frames.available(), before);
    assert!(!k.halted);
}

#[test]
fn mmap_maps_with_the_permissions_of_the_port() {
    let mut k = booted(64);
    let ports: [(usize, u8); 7] = [
        (1, 0b1_0011),
        (2, 0b1_0101),
        (3, 0b1_0111),
        (4, 0b1_1001),
        (5, 0b1_1011),
        (6, 0b1_1101),
        (7, 0b1_1111),
    ];
    for (i, (port, flags)) in ports.iter().enumerate() {
        let start = 0x100000 + 0x10000 * i;
        assert_eq!(sys_mmap(&mut k, start, 4097, *port), 0);
        for vpn in [start / 4096, start / 4096 + 1] {
            let e = task(&k, 0).memory_set.translate(&k.frames, VirtPageNum(vpn as u64)).unwrap();
            assert_eq!(e.flags(), *flags);
            assert!(e.is_valid());
            assert!(e.user());
            assert_eq!(e.readable(), port & 1 != 0);
            assert_eq!(e.writable(), port & 2 != 0);
            assert_eq!(e.executable(), port & 4 != 0);
        }
        assert_eq!(user_bytes(&k, 0, start as u64, 4097), vec![0u8; 4097]);
        assert!(task(&k, 0).memory_set.translate(&k.frames, VirtPageNum(start as u64 / 4096 + 2)).is_none());
    }
    // the first page of the highest range in use is the trap context's
    assert_eq!(sys_mmap(&mut k, 0x7f_ffff_d000, 4096, 1), 0);
}

#[test]
fn munmap_after_mmap_removes_every_page() {
    let mut k = booted(64);
    let before = k.frames.available();
    assert_eq!(sys_mmap(&mut k, 0x40000, 3 * 4096, 3), 0);
    // three pages; the nodes exist already
    assert_eq!(k.frames.available(), before - 3);
    k.write_user(0x41000, &vec![5]);
    assert_eq!(sys_munmap(&mut k, 0x40000, 3 * 4096), 0);
    for vpn in 0x40..0x43 {
        assert!(task(&k, 0).memory_set.translate(&k.frames, VirtPageNum(vpn)).is_none());
    }
    assert_eq!(k.frames.available(), before);
    // unmapped pages cannot be unmapped again
    assert_eq!(sys_munmap(&mut k, 0x40000, 3 * 4096), -1);
    // and can be mapped again, zeroed
    assert_eq!(sys_mmap(&mut k, 0x40000, 3 * 4096, 1), 0);
    assert_eq!(user_bytes(&k, 0, 0x41000, 1), vec![0]);
}

#[test]
fn munmap_checks_and_partial_ranges() {
    let mut k = booted(64);
    assert_eq!(sys_mmap(&mut k, 0x40000, 4096, 3), 0);
    assert_eq!(sys_munmap(&mut k, 0x40001, 4095), -1);
    assert_eq!(sys_munmap(&mut k, 0x7f_ffff_f000, 0x2000), -1);
    // an empty range is unmapped at once, wherever it lies
    assert_eq!(sys_munmap(&mut k, 0x40000, 0), 0);
    assert_eq!(sys_munmap(&mut k, 0x80_0000_1000, 0), 0);
    assert_eq!(sys_munmap(&mut k, 0x80_0000_1001, 0), -1);
    assert_eq!(sys_munmap(&mut k, 0x80_0000_1000, 1), -1);
    assert!(task(&k, 0).memory_set.translate(&k.frames, VirtPageNum(0x40)).is_some());
    // one page more than is mapped: the mapped page goes, the call fails
    assert_eq!(sys_munmap(&mut k, 0x40000, 4097), -1);
    assert!(task(&k, 0).memory_set.translate(&k.frames, VirtPageNum(0x40)).is_none());
    // part of a mapped range
    assert_eq!(sys_mmap(&mut k, 0x50000, 3 * 4096, 3), 0);
    assert_eq!(sys_munmap(&mut k, 0x51000, 4096), 0);
    assert!(task(&k, 0).memory_set.translate(&k.frames, VirtPageNum(0x50)).is_some());
    assert!(task(&k, 0).memory_set.translate(&k.frames, VirtPageNum(0x51)).is_none());
    assert!(task(&k, 0).memory_set.translate(&k.frames, VirtPageNum(0x52)).is_some());
}

#[test]
fn mmap_halts_the_kernel_without_frames() {
    let mut k = booted(13);
    assert_eq!(k.frames.available(), 2);
    assert_eq!(sys_mmap(&mut k, 0x40000, 2 * 4096, 3), 0);
    assert!(!k.halted);
    assert_eq!(sys_mmap(&mut k, 0x50000, 4096, 3), -1);
    assert!(k.halted);
}

#[test]
fn mapping_without_a_running_task_fails() {
    let mut k = Kernel::new(64, 1);
    assert_eq!(sys_mmap(&mut k, 0x40000, 4096, 3), -1);
    assert_eq!(sys_munmap(&mut k, 0x40000, 4096), -1);
    assert_eq!(sys_munmap(&mut k, 0x40000, 0), 0);
    assert_eq!(insert_framed_area(&mut k, VirtAddr(0x40000), VirtAddr(0x41000), 6), -1);
    assert_eq!(un_map(&mut k, VirtPageNum(0x40)), -1);
    assert_eq!(sys_task_info(&mut k, 0x13000), -1);
    set_current_task_info(&mut k, 3);
}

#[test]
fn insert_framed_area_and_un_map() {
    let mut k = booted(64);
    assert_eq!(insert_framed_area(&mut k, VirtAddr(0x40800), VirtAddr(0x41800), 0b0110), 0);
    for vpn in [0x40, 0x41] {
        let e = task(&k, 0).memory_set.translate(&k.frames, VirtPageNum(vpn)).unwrap();
        assert_eq!(e.flags(), 0b1_0111);
    }
    assert_eq!(insert_framed_area(&mut k, VirtAddr(0x41000), VirtAddr(0x42000), 0b0110), -1);
    assert_eq!(insert_framed_area(&mut k, VirtAddr(0x43000), VirtAddr(0x42000), 0b0110), -1);
    assert_eq!(insert_framed_area(&mut k, VirtAddr(0x7f_ffff_f000), VirtAddr(0x80_0000_1000), 2), -1);
    assert_eq!(un_map(&mut k, VirtPageNum(0x41)), 0);
    assert_eq!(un_map(&mut k, VirtPageNum(0x41)), -1);
    assert_eq!(un_map(&mut k, VirtPageNum(0x800_0000)), -1);
    assert!(task(&k, 0).memory_set.translate(&k.frames, VirtPageNum(0x40)).is_some());
}

#[test]
fn sbrk_moves_the_heap_boundary() {
    let mut k = booted(64);
    let before = k.frames.available();
    assert_eq!(sys_sbrk(&mut k, 0), HEAP as isize);
    assert_eq!(sys_sbrk(&mut k, 100), HEAP as isize);
    assert_eq!(task(&k, 0).program_brk, HEAP + 100);
    assert!(task(&k, 0).memory_set.translate(&k.frames, VirtPageNum(0x15)).is_some());
    assert_eq!(k.frames.available(), before - 1);
    // inside the same page nothing is mapped anew
    assert_eq!(sys_sbrk(&mut k, 3000), HEAP as isize + 100);
    assert_eq!(k.frames.available(), before - 1);
    assert_eq!(sys_sbrk(&mut k, 4096), HEAP as isize + 3100);
    assert!(task(&k, 0).memory_set.translate(&k.frames, VirtPageNum(0x16)).is_some());
    assert_eq!(sys_sbrk(&mut k, -7196), HEAP as isize + 7196);
    assert_eq!(task(&k, 0).program_brk, HEAP);
    assert!(task(&k, 0).memory_set.translate(&k.frames, VirtPageNum(0x15)).is_none());
    assert_eq!(k.frames.available(), before);
    // below the bottom of the heap
    assert_eq!(sys_sbrk(&mut k, -1), -1);
    assert_eq!(task(&k, 0).program_brk, HEAP);
}

#[test]
fn sbrk_there_and_back() {
    let mut k = booted(64);
    assert_eq!(sys_sbrk(&mut k, 5000), HEAP as isize);
    for d in [1, 4095, 4096, 10000, -1, -4999, -5000] {
        let start = task(&k, 0).program_brk as isize;
        assert_eq!(sys_sbrk(&mut k, d), start);
        assert_eq!(sys_sbrk(&mut k, -d), start + d as isize);
        assert_eq!(task(&k, 0).program_brk as isize, start);
    }
}

#[test]
fn sbrk_does_not_grow_into_mapped_pages() {
    let mut k = booted(64);
    assert_eq!(sys_mmap(&mut k, 0x17000, 4096, 3), 0);
    assert_eq!(sys_sbrk(&mut k, 0x2000), HEAP as isize);
    assert_eq!(sys_sbrk(&mut k, 1), -1);
    assert_eq!(task(&k, 0).program_brk, HEAP + 0x2000);
    assert!(!k.halted);
}

#[test]
fn get_time_writes_seconds_and_microseconds() {
    let mut k = booted(64);
    k.tick(3_000_123);
    k.write_user(STACK + 8, &vec![0xee; 24]);
    assert!(k.is_user_range_mapped(STACK + 12, 16));
    assert_eq!(sys_get_time(&mut k, STACK + 12, 0), 0);
    let mut want = vec![0xee; 4];
    want.extend_from_slice(&3u64.to_le_bytes());
    want.extend_from_slice(&123u64.to_le_bytes());
    want.extend_from_slice(&[0xee; 4]);
    assert_eq!(user_bytes(&k, 0, STACK as u64 + 8, 24), want);
    assert_eq!(TimeVal { sec: 1, usec: 0x0203 }.to_bytes(), vec![1, 0, 0, 0, 0, 0, 0, 0, 3, 2, 0, 0, 0, 0, 0, 0]);
}

#[test]
fn get_time_across_a_page_boundary() {
    let mut k = booted(64);
    k.tick(7_000_009);
    let ts = 0x14000 - 5;
    assert_eq!(sys_get_time(&mut k, ts, 0), 0);
    let mut want = 7u64.to_le_bytes().to_vec();
    want.extend_from_slice(&9u64.to_le_bytes());
    assert_eq!(user_bytes(&k, 0, ts as u64, 16), want);
}

#[test]
fn the_clock_never_goes_back() {
    let mut k = Kernel::new(16, 1);
    k.tick(5000);
    assert_eq!(k.get_time_us(), 5000);
    assert_eq!(k.get_time_ms(), 5);
    k.tick(3000);
    assert_eq!(k.get_time_us(), 5000);
    k.tick(5001);
    assert_eq!(k.get_time_us(), 5001);
}

#[test]
fn user_range_checks() {
    let k = booted(64);
    assert!(k.is_user_range_mapped(STACK, 0x2000));
    assert!(!k.is_user_range_mapped(STACK, 0x2001));
    assert!(!k.is_user_range_mapped(0x12fff, 2));
    assert!(k.is_user_range_mapped(0x12fff, 0));
    assert!(!k.is_user_range_mapped(0x7f_ffff_f000, 0x2000));
    assert!(!Kernel::new(8, 1).is_user_range_mapped(0, 0));
}

#[test]
fn task_info_counts_calls_and_time() {
    let mut k = booted(64);
    k.tick(10_000);
    set_current_task_info(&mut k, 124);
    assert_eq!(task(&k, 0).start_time, 10);
    assert_eq!(task(&k, 0).task_info.time, 0);
    k.tick(25_999);
    set_current_task_info(&mut k, 124);
    set_current_task_info(&mut k, 169);
    k.tick(31_000);
    set_current_task_info(&mut k, 124);
    let info = get_current_task_info(&k).unwrap();
    assert_eq!(info.syscall_times[124], 3);
    assert_eq!(info.syscall_times[169], 1);
    assert_eq!(info.syscall_times[0], 0);
    assert_eq!(info.time, 21);
    assert_eq!(info.status, TaskStatus::Running);
    assert_eq!(task(&k, 0).end_time, 31);
    // the record in user memory
    assert_eq!(sys_task_info(&mut k, STACK), 0);
    let got = user_bytes(&k, 0, STACK as u64, 2016);
    assert_eq!(&got[0..4], &[2, 0, 0, 0]);
    assert_eq!(&got[4 + 4 * 124..8 + 4 * 124], &[3, 0, 0, 0]);
    assert_eq!(&got[4 + 4 * 169..8 + 4 * 169], &[1, 0, 0, 0]);
    assert_eq!(&got[2004..2008], &[0, 0, 0, 0]);
    assert_eq!(&got[2008..2016], &21u64.to_le_bytes());
    assert_eq!(got.iter().filter(|b| **b != 0).count(), 4);
}

#[test]
fn task_info_time_grows_with_the_clock() {
    let mut k = booted(64);
    let mut last = 0;
    for (i, now) in [0usize, 0, 2_000, 2_999, 3_000, 50_000].iter().enumerate() {
        k.tick(*now);
        set_current_task_info(&mut k, 124);
        let info = get_current_task_info(&k).unwrap();
        assert_eq!(info.syscall_times[124] as usize, i + 1);
        assert!(info.time >= last);
        last = info.time;
    }
    assert_eq!(last, 48);
}

#[test]
fn task_info_is_per_task() {
    let mut k = booted(64);
    set_current_task_info(&mut k, 220);
    assert_eq!(sys_fork(&mut k), 1);
    // the child starts without counts
    assert_eq!(task(&k, 1).task_info.syscall_times[220], 0);
    sys_yield(&mut k);
    set_current_task_info(&mut k, 124);
    assert_eq!(task(&k, 1).task_info.syscall_times[124], 1);
    assert_eq!(task(&k, 0).task_info.syscall_times[124], 0);
    assert_eq!(task(&k, 0).task_info.syscall_times[220], 1);
}

#[test]
fn task_info_bytes_layout() {
    let mut info = TaskInfo::new();
    info.syscall_times[0] = 0x0403_0201;
    info.syscall_times[MAX_SYSCALL_NUM - 1] = 0xffff_fffe;
    info.time = 0x0102;
    let b = task_info_bytes(&info, TaskStatus::Zombie);
    assert_eq!(b.len(), 2016);
    assert_eq!(&b[0..8], &[3, 0, 0, 0, 1, 2, 3, 4]);
    assert_eq!(&b[2000..2016], &[0xfe, 0xff, 0xff, 0xff, 0, 0, 0, 0, 2, 1, 0, 0, 0, 0, 0, 0]);
    assert_eq!(task_info_bytes(&info, TaskStatus::UnInit)[0], 0);
    assert_eq!(task_info_bytes(&info, TaskStatus::Ready)[0], 1);
    assert_eq!(task_info_bytes(&info, TaskStatus::Running)[0], 2);
}

#[test]
fn exec_replaces_the_program() {
    let mut k = booted(64);
    let other = image(0x20008, &[(0x20000, 0x1000, 6, vec![9, 8, 7])]);
    assert!(k.add_program(b"other".to_vec(), other));
    assert_eq!(sys_fork(&mut k), 1);
    k.tasks[0].as_mut().unwrap().fd_table.push(Some(4));
    set_current_task_info(&mut k, 221);
    k.write_user(STACK, &b"other\0".to_vec());
    let before = k.frames.available();
    assert_eq!(sys_exec(&mut k, STACK), 0);
    assert!(!k.halted);
    let t = task(&k, 0);
    assert_eq!(t.pid, 0);
    assert_eq!(t.task_status, TaskStatus::Running);
    assert_eq!(t.children, vec![1]);
    assert_eq!(t.parent, None);
    assert_eq!(t.fd_table, vec![Some(0), Some(1), Some(2), Some(4)]);
    assert_eq!(t.task_info.syscall_times[221], 1);
    assert_eq!(t.trap_cx.sepc, 0x20008);
    // one page at 0x20, the stack at 0x22 and 0x23
    assert_eq!(t.trap_cx.x[2], 0x24000);
    assert_eq!(t.trap_cx.x[10], 0);
    assert_eq!((t.base_size, t.heap_bottom, t.program_brk), (0x24000, 0x24000, 0x24000));
    assert_eq!(user_bytes(&k, 0, 0x20000, 4), vec![9, 8, 7, 0]);
    assert!(t.memory_set.translate(&k.frames, VirtPageNum(0x10)).is_none());
    assert!(t.memory_set.translate(&k.frames, VirtPageNum(0x13)).is_none());
    assert_eq!(t.memory_set.translate(&k.frames, VirtPageNum(0x20)).unwrap().flags(), 0b1_0111);
    let trap = t.memory_set.translate(&k.frames, VirtPageNum(0x7ff_fffe)).unwrap();
    assert_eq!(t.trap_cx_ppn, trap.ppn());
    // nine frames for the new program, ten back from the old
    assert_eq!(k.frames.available(), before + 1);
    // the child still has the old program
    assert_eq!(user_bytes(&k, 1, 0x10000, 2), vec![0x13, 0x37]);
    assert_eq!(k.processor.current, Some(0));
}

#[test]
fn exec_of_an_unknown_program_changes_nothing() {
    let mut k = booted(64);
    k.write_user(STACK, &b"nothing\0".to_vec());
    let before = k.frames.available();
    assert_eq!(sys_exec(&mut k, STACK), -1);
    assert_eq!(sys_exec(&mut k, STACK + 7), -1);
    assert_eq!(k.frames.available(), before);
    assert_eq!(task(&k, 0).trap_cx.sepc, 0x10000);
    assert_eq!(user_bytes(&k, 0, 0x10000, 2), vec![0x13, 0x37]);
}

#[test]
fn exec_halts_the_kernel_without_frames() {
    // the new program is built while the old one is still in place
    let mut k = booted(20);
    k.write_user(STACK, &b"ch6b_initproc\0".to_vec());
    assert_eq!(sys_exec(&mut k, STACK), -1);
    assert!(k.halted);
    let mut k = booted(21);
    k.write_user(STACK, &b"ch6b_initproc\0".to_vec());
    assert_eq!(sys_exec(&mut k, STACK), 0);
    assert_eq!(k.frames.available(), 10);
}

#[test]
fn spawn_and_priority_are_not_offered() {
    assert_eq!(sys_spawn(0x1000), -1);
    assert_eq!(sys_set_priority(5), -1);
    assert_eq!(sys_set_priority(-5), -1);
}

#[test]
fn physical_address_of_a_virtual_one() {
    let k = booted(64);
    let ppn = task(&k, 0).memory_set.translate(&k.frames, VirtPageNum(0x13)).unwrap().ppn();
    assert_eq!(get_pa_from_va(&k, 0x13abc), ppn as usize * 4096 + 0xabc);
    // the kernel's page is its own frame
    assert_eq!(get_pa_from_va(&k, 0x123), 0x123);
}

#[test]
fn pid_allocator_reuses_the_pid_freed_last() {
    let mut p = PidAllocator::new();
    assert_eq!(p.allocate(), Some(0));
    assert_eq!(p.allocate(), Some(1));
    assert_eq!(p.allocate(), Some(2));
    p.free(0);
    p.free(2);
    assert_eq!(p.allocate(), Some(2));
    assert_eq!(p.allocate(), Some(0));
    assert_eq!(p.allocate(), Some(3));
}

#[test]
fn kernel_stacks_hang_below_the_highest_page() {
    assert_eq!(kernel_stack_position(0), (TRAMPOLINE - 8192, TRAMPOLINE));
    assert_eq!(kernel_stack_position(1), (TRAMPOLINE - 12288 - 8192, TRAMPOLINE - 12288));
    assert_eq!(KernelStack { pid: 2 }.get_top(), TRAMPOLINE - 2 * 12288);
}

#[test]
fn contexts_of_a_new_task() {
    let z = TaskContext::zero_init();
    assert_eq!((z.ra, z.sp, z.s), (0, 0, [0; 12]));
    let c = TaskContext::goto_trap_return(0x9000);
    assert_eq!((c.ra, c.sp, c.s), (TRAP_RETURN, 0x9000, [0; 12]));
    let t = TrapContext::app_init_context(0x100, 0x200, 3, 0x400, 0x500);
    assert_eq!(t.sepc, 0x100);
    assert_eq!(t.x[2], 0x200);
    assert_eq!(t.x.iter().filter(|r| **r != 0).count(), 1);
    assert_eq!((t.kernel_satp, t.kernel_sp, t.trap_handler, t.sstatus), (3, 0x400, 0x500, 0));
}

#[test]
fn ready_queue_is_first_in_first_out() {
    let mut m = TaskManager::new();
    assert_eq!(m.fetch(), None);
    m.add(4);
    m.add(2);
    m.add(9);
    assert_eq!(m.len(), 3);
    assert_eq!(m.fetch(), Some(4));
    m.add(1);
    assert_eq!(m.fetch(), Some(2));
    assert_eq!(m.fetch(), Some(9));
    assert_eq!(m.fetch(), Some(1));
    assert_eq!(m.fetch(), None);
}

#[test]
fn wait_poll_tells_without_reaping() {
    let mut k = booted(128);
    assert_eq!(wait_poll(&k, -1).0, -1);
    assert_eq!(sys_fork(&mut k), 1);
    assert_eq!(sys_fork(&mut k), 2);
    assert_eq!(wait_poll(&k, -1).0, -2);
    assert_eq!(wait_poll(&k, 3).0, -1);
    sys_yield(&mut k);
    sys_yield(&mut k);
    sys_exit(&mut k, 9);
    assert_eq!(wait_poll(&k, -1), (2, 1));
    assert_eq!(wait_poll(&k, 2), (2, 1));
    assert_eq!(wait_poll(&k, 1).0, -2);
    assert!(k.tasks[2].is_some());
    assert_eq!(task(&k, 0).children, vec![1, 2]);
}

#[test]
fn new_processor_is_idle() {
    let mut p = Processor::new();
    assert_eq!(p.current(), None);
    assert_eq!((p.idle_task_cx.ra, p.idle_task_cx.sp, p.idle_task_cx.s), (0, 0, [0; 12]));
    p.current = Some(4);
    assert_eq!(p.take_current(), Some(4));
    assert_eq!(p.current(), None);
}

#[test]
fn new_program_table_is_empty() {
    let t = ProgramTable::new();
    assert_eq!(t.get_app_data_by_name(&Vec::new()), None);
    assert_eq!(t.get_app_data_by_name(&initproc_name_bytes()), None);
}

#[test]
fn sbrk_by_nothing_changes_nothing() {
    let mut k = booted(64);
    let before = k.frames.available();
    assert_eq!(sys_sbrk(&mut k, 0), HEAP as isize);
    assert_eq!(sys_sbrk(&mut k, 5), HEAP as isize);
    assert_eq!(sys_sbrk(&mut k, 0), HEAP as isize + 5);
    assert_eq!(task(&k, 0).program_brk, HEAP + 5);
    assert_eq!(k.frames.available(), before - 1);
    // the heap keeps its region when pages are mapped and unmapped around it
    assert_eq!(sys_mmap(&mut k, 0x16000, 4096, 3), 0);
    assert_eq!(sys_munmap(&mut k, 0x15000, 4096), 0);
    assert_eq!(sys_sbrk(&mut k, 0), HEAP as isize + 5);
    assert_eq!(sys_sbrk(&mut k, -5), HEAP as isize + 5);
    assert_eq!(task(&k, 0).program_brk, HEAP);
}
