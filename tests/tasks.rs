use os4::address::{PhysPageNum, VirtPageNum};
use os4::frame_allocator::StackFrameAllocator;
use os4::memory_set::MemorySet;
use os4::page_table::{PTE_R, PTE_U, PTE_V, PTE_W, PTE_X};

use os4::task::{
    current_trap_cx, current_user_token, exit_current_and_run_next, get_current_task_time, get_syscall_times,
    mmap, munmap, run_first_task, suspend_current_and_run_next, update_syscall_times, Dispatch, TaskContext,
    TaskControlBlock, TaskManager, TaskStatus, MAX_SYSCALL_NUM,
};

fn manager(n: usize, frames: u64) -> TaskManager {
    let mut a = StackFrameAllocator::new(PhysPageNum(0x80000), PhysPageNum(0x80000 + frames));
    let mut tasks = Vec::new();
    for i in 0..n {
        let ms = MemorySet::new_bare(&mut a);
        let cx = TaskContext::goto_trap_return(0x8020_0000, 0x9000_0000 + i * 0x2000);
        tasks.push(TaskControlBlock::new(ms, PhysPageNum(0x7_0000 + i as u64), 0x1000, cx));
    }
    TaskManager::new(tasks, a)
}

#[test]
fn new_tasks_are_ready_with_zero_counts() {
    let m = manager(3, 64);
    assert_eq!(m.num_app(), 3);
    for i in 0..3 {
        assert_eq!(m.task_status(i), TaskStatus::Ready);
    }
    assert_eq!(current_user_token(&m) >> 60, 8);
    let times = get_syscall_times(&m);
    assert_eq!(times.len(), MAX_SYSCALL_NUM);
    assert!(times.iter().all(|t| *t == 0));
}

#[test]
fn mmap_unaligned_start_is_refused() {
    let mut m = manager(1, 64);
    assert_eq!(mmap(&mut m, 0x1001, 0x1000, 0b011), -1);
    // nothing was mapped: the aligned call over the same page succeeds
    assert_eq!(mmap(&mut m, 0x1000, 0x1000, 0b011), 0);
}

#[test]
fn mmap_bad_port_is_refused() {
    let mut m = manager(1, 64);
    assert_eq!(mmap(&mut m, 0x1000, 0x1000, 0), -1);
    assert_eq!(mmap(&mut m, 0x1000, 0x1000, 0b1000), -1);
    assert_eq!(mmap(&mut m, 0x1000, 0x1000, 0b1111), -1);
    assert_eq!(munmap(&mut m, 0x1000, 0x1000), -1);
    assert_eq!(mmap(&mut m, 0x1000, 0x1000, 0b111), 0);
}

#[test]
fn mmap_then_munmap_round_trip() {
    let mut m = manager(1, 64);
    let r1 = mmap(&mut m, 0x10000, 0x3000, 0b001);
    let r2 = munmap(&mut m, 0x10000, 0x3000);
    assert_eq!((r1, r2), (0, 0));
    // every page is free again: unmapping any of them is refused, mapping succeeds
    for p in 0..3 {
        assert_eq!(munmap(&mut m, 0x10000 + p * 0x1000, 0x1000), -1);
    }
    assert_eq!(mmap(&mut m, 0x10000, 0x3000, 0b001), 0);
}

#[test]
fn mmap_overlap_is_refused_and_first_mapping_kept() {
    let mut m = manager(1, 64);
    assert_eq!(mmap(&mut m, 0x20000, 0x2000, 0b011), 0);
    assert_eq!(mmap(&mut m, 0x21000, 0x2000, 0b011), -1);
    // the first region is still mapped in full, the refused one not at all
    assert_eq!(munmap(&mut m, 0x22000, 0x1000), -1);
    assert_eq!(munmap(&mut m, 0x20000, 0x2000), 0);
}

#[test]
fn mmap_sets_permission_bits_from_port() {
    let mut m = manager(1, 64);
    assert_eq!(mmap(&mut m, 0x30000, 0x1000, 0b101), 0);
    let e = m.current_translate(VirtPageNum(0x30)).unwrap();
    assert_eq!(e.flags().bits, PTE_R | PTE_X | PTE_U | PTE_V);
    assert!(e.readable() && !e.writable() && e.executable());
    assert_eq!(mmap(&mut m, 0x31000, 0x1000, 0b010), 0);
    assert_eq!(m.current_translate(VirtPageNum(0x31)).unwrap().flags().bits, PTE_W | PTE_U | PTE_V);
    assert_eq!(munmap(&mut m, 0x30000, 0x1000), 0);
    assert!(!m.current_translate(VirtPageNum(0x30)).unwrap().is_valid());
}

#[test]
fn mmap_backs_pages_with_distinct_frames() {
    let mut m = manager(1, 64);
    assert_eq!(mmap(&mut m, 0x50000, 0x3000, 0b011), 0);
    let a = m.current_translate(VirtPageNum(0x50)).unwrap().ppn();
    let b = m.current_translate(VirtPageNum(0x51)).unwrap().ppn();
    let c = m.current_translate(VirtPageNum(0x52)).unwrap().ppn();
    assert!(a != b && b != c && a != c);
}

#[test]
fn munmap_gives_back_every_page_frame() {
    let mut m = manager(1, 64);
    let before = m.available_frames();
    assert_eq!(mmap(&mut m, 0x10000, 0x3000, 0b011), 0);
    // three data frames and two intermediate tables
    assert_eq!(m.available_frames(), before - 5);
    assert_eq!(munmap(&mut m, 0x10000, 0x3000), 0);
    // the tables stay with the page table
    assert_eq!(m.available_frames(), before - 2);
    assert_eq!(mmap(&mut m, 0x10000, 0x3000, 0b011), 0);
    assert_eq!(m.available_frames(), before - 5);
}

#[test]
fn mmap_of_empty_length_maps_nothing() {
    let mut m = manager(1, 64);
    assert_eq!(mmap(&mut m, 0x40000, 0, 0b001), 0);
    assert_eq!(munmap(&mut m, 0x40000, 0x1000), -1);
    assert_eq!(munmap(&mut m, 0x40000, 0), 0);
}

#[test]
fn mmap_without_enough_frames_is_refused() {
    // two roots take two frames; three left, four pages would need twelve
    let mut m = manager(2, 5);
    assert_eq!(mmap(&mut m, 0x1000, 0x4000, 0b011), -1);
    assert_eq!(mmap(&mut m, 0x1000, 0x1000, 0b011), 0);
}

#[test]
fn mmap_beyond_address_space_is_refused() {
    let mut m = manager(1, 64);
    assert_eq!(mmap(&mut m, 0x80_0000_0000, 0x1000, 0b001), -1);
    assert_eq!(mmap(&mut m, 0x7f_ffff_f000, 0x2000, 0b001), -1);
    assert_eq!(mmap(&mut m, usize::MAX & !0xfff, 0x2000, 0b001), -1);
    assert_eq!(mmap(&mut m, 0x7f_ffff_f000, 0x1000, 0b001), 0);
}

#[test]
fn munmap_unaligned_or_unmapped_is_refused() {
    let mut m = manager(1, 64);
    assert_eq!(mmap(&mut m, 0x5000, 0x2000, 0b011), 0);
    assert_eq!(munmap(&mut m, 0x5001, 0x1000), -1);
    assert_eq!(munmap(&mut m, 0x5000, 0x3000), -1);
    assert_eq!(munmap(&mut m, 0x6000, 0x1000), 0);
    assert_eq!(munmap(&mut m, 0x5000, 0x1000), 0);
}

#[test]
fn mmap_is_scoped_to_current_task() {
    let mut m = manager(2, 64);
    run_first_task(&mut m, 10);
    assert_eq!(mmap(&mut m, 0x8000, 0x1000, 0b001), 0);
    assert_eq!(suspend_current_and_run_next(&mut m, 20), Dispatch::Switch { current: 0, next: 1 });
    assert_eq!(munmap(&mut m, 0x8000, 0x1000), -1);
    assert_eq!(mmap(&mut m, 0x8000, 0x1000, 0b001), 0);
}

#[test]
fn next_task_is_ready_and_none_when_all_exited() {
    let mut m = manager(2, 64);
    run_first_task(&mut m, 1);
    assert_eq!(m.find_next_task(), Some(1));
    assert_eq!(exit_current_and_run_next(&mut m, 2), Dispatch::Switch { current: 0, next: 1 });
    assert_eq!(m.find_next_task(), None);
    assert_eq!(exit_current_and_run_next(&mut m, 3), Dispatch::AllCompleted);
    assert_eq!(m.task_status(0), TaskStatus::Exited);
    assert_eq!(m.task_status(1), TaskStatus::Exited);
}

#[test]
fn suspend_visits_tasks_in_cyclic_order() {
    let mut m = manager(3, 64);
    run_first_task(&mut m, 1);
    let mut seen = vec![m.current_task()];
    for t in 0..6 {
        match suspend_current_and_run_next(&mut m, 2 + t) {
            Dispatch::Switch { next, .. } => seen.push(next),
            Dispatch::AllCompleted => panic!("a task is always ready"),
        }
    }
    assert_eq!(seen, vec![0, 1, 2, 0, 1, 2, 0]);
}

#[test]
fn single_task_suspends_to_itself() {
    let mut m = manager(1, 64);
    run_first_task(&mut m, 1);
    assert_eq!(suspend_current_and_run_next(&mut m, 2), Dispatch::Switch { current: 0, next: 0 });
    assert_eq!(m.task_status(0), TaskStatus::Running);
}

#[test]
fn syscall_counts_per_task() {
    let mut m = manager(2, 64);
    run_first_task(&mut m, 1);
    for _ in 0..5 {
        update_syscall_times(&mut m, 64);
    }
    update_syscall_times(&mut m, 93);
    assert_eq!(get_syscall_times(&m)[64], 5);
    assert_eq!(get_syscall_times(&m)[93], 1);
    suspend_current_and_run_next(&mut m, 2);
    update_syscall_times(&mut m, 93);
    update_syscall_times(&mut m, 93);
    assert_eq!(get_syscall_times(&m)[64], 0);
    assert_eq!(get_syscall_times(&m)[93], 2);
    suspend_current_and_run_next(&mut m, 3);
    assert_eq!(get_syscall_times(&m)[64], 5);
    assert_eq!(get_syscall_times(&m)[93], 1);
}

#[test]
fn start_time_is_stamped_at_first_dispatch_only() {
    let mut m = manager(2, 64);
    run_first_task(&mut m, 5_000);
    assert_eq!(get_current_task_time(&m, 12_000), 7_000);
    suspend_current_and_run_next(&mut m, 20_000);
    assert_eq!(m.get_start_time(25_000), 5_000);
    suspend_current_and_run_next(&mut m, 30_000);
    assert_eq!(m.get_start_time(30_000), 25_000);
    assert_eq!(m.get_start_time(1_000), 0);
}

#[test]
fn current_trap_context_page_and_context() {
    let mut m = manager(2, 64);
    let cx = run_first_task(&mut m, 1);
    assert_eq!(cx.ra, 0x8020_0000);
    assert_eq!(cx.sp, 0x9000_0000);
    assert_eq!(current_trap_cx(&m), PhysPageNum(0x7_0000));
    suspend_current_and_run_next(&mut m, 2);
    assert_eq!(current_trap_cx(&m), PhysPageNum(0x7_0001));
    assert_eq!(m.task_context(1).sp, 0x9000_2000);
    assert_eq!(TaskContext::zero_init().s, [0; 12]);
}

#[test]
fn three_tasks_end_to_end() {
    let mut m = manager(3, 64);
    run_first_task(&mut m, 100);
    assert_eq!(m.task_status(0), TaskStatus::Running);
    assert_eq!(suspend_current_and_run_next(&mut m, 200), Dispatch::Switch { current: 0, next: 1 });
    assert_eq!(m.task_status(0), TaskStatus::Ready);
    assert_eq!(m.task_status(1), TaskStatus::Running);
    assert_eq!(exit_current_and_run_next(&mut m, 300), Dispatch::Switch { current: 1, next: 2 });
    assert_eq!(m.task_status(1), TaskStatus::Exited);
    assert_eq!(m.task_status(2), TaskStatus::Running);
    assert_eq!(exit_current_and_run_next(&mut m, 400), Dispatch::Switch { current: 2, next: 0 });
    assert_eq!(exit_current_and_run_next(&mut m, 500), Dispatch::AllCompleted);
}
