use syscall_core::mm::permission::MapPermission;
use syscall_core::syscall::process::{
    sys_exit, sys_get_time, sys_mmap, sys_munmap, sys_sbrk, sys_task_info, sys_yield, TaskInfo,
    TimeVal, TASK_INFO_SIZE, TIME_VAL_SIZE,
};
use syscall_core::task::manager::TaskManager;
use syscall_core::task::status::TaskStatus;

const PAGE: usize = 4096;
const HEAP: usize = 0x40_0000;
const R: usize = 0x2;
const W: usize = 0x4;
const X: usize = 0x8;
const U: usize = 0x10;
const SYSCALL_YIELD: usize = 124;

fn one_task(frames: usize) -> TaskManager {
    let mut manager = TaskManager::new(frames);
    assert_eq!(manager.add_task(HEAP, 0), Some(0));
    assert!(manager.make_ready(0));
    assert_eq!(manager.run_first_task(), Some(0));
    manager
}

fn layout(manager: &TaskManager) -> Vec<(usize, usize, u8)> {
    let task = manager.task(manager.current().unwrap());
    let set = task.memory_set();
    let mut out = Vec::new();
    for i in 0..set.area_count() {
        out.push((set.area(i).start(), set.area(i).end(), set.area(i).perm().bits()));
    }
    out
}

fn word(bytes: &[u8]) -> u64 {
    let mut b = [0u8; 8];
    b.copy_from_slice(bytes);
    u64::from_le_bytes(b)
}

#[test]
fn mmap_then_munmap_leaves_the_areas_as_they_were() {
    let mut manager = one_task(16);
    assert_eq!(sys_mmap(&mut manager, 0x10000, 2 * PAGE, R | W), 1);
    let before = layout(&manager);
    let free = manager.frames_available();
    assert_eq!(sys_mmap(&mut manager, 0x20000, 3 * PAGE, R), 1);
    assert_eq!(manager.frames_available(), free - 3);
    assert_eq!(sys_munmap(&mut manager, 0x20000, 3 * PAGE), 1);
    assert_eq!(layout(&manager), before);
    assert_eq!(manager.frames_available(), free);
    // also between two areas that touch it
    assert_eq!(sys_mmap(&mut manager, 0x13000, PAGE, R), 1);
    let before = layout(&manager);
    assert_eq!(sys_mmap(&mut manager, 0x12000, PAGE, R | X), 1);
    assert_eq!(sys_munmap(&mut manager, 0x12000, PAGE), 1);
    assert_eq!(layout(&manager), before);
}

#[test]
fn mmap_maps_whole_pages_with_user_access() {
    let mut manager = one_task(16);
    assert_eq!(sys_mmap(&mut manager, 0x10000, 1, R), 1);
    assert_eq!(sys_mmap(&mut manager, 0x20000, PAGE + 1, R | W | X), 1);
    assert_eq!(sys_mmap(&mut manager, 0x30000, PAGE, W | U), 1);
    assert_eq!(sys_mmap(&mut manager, 0x40000, PAGE, U), 1);
    assert_eq!(
        layout(&manager),
        vec![
            (0x10, 0x11, 0x12),
            (0x20, 0x22, 0x1e),
            (0x30, 0x31, 0x14),
            (0x40, 0x41, 0x10),
        ]
    );
    assert_eq!(manager.frames_available(), 16 - 5);
    // fresh pages are zero
    assert_eq!(manager.read_current(0x10000, 4), Some(vec![0, 0, 0, 0]));
    assert_eq!(manager.read_current(0x10000 + PAGE - 1, 1), Some(vec![0]));
    assert_eq!(manager.read_current(0x10000 + PAGE - 1, 2), None);
    // not readable
    assert_eq!(manager.read_current(0x30000, 1), None);
}

#[test]
fn mmap_rejects_bad_arguments_and_changes_nothing() {
    let mut manager = one_task(16);
    assert_eq!(sys_mmap(&mut manager, 0x10000, PAGE, R | W), 1);
    let before = layout(&manager);
    let free = manager.frames_available();
    // a bit that stands for no right
    assert_eq!(sys_mmap(&mut manager, 0x20000, PAGE, R | 0x1), -1);
    assert_eq!(sys_mmap(&mut manager, 0x20000, PAGE, R | 0x20), -1);
    assert_eq!(sys_mmap(&mut manager, 0x20000, PAGE, R | 0x100), -1);
    assert_eq!(sys_mmap(&mut manager, 0x20000, PAGE, usize::MAX), -1);
    assert_eq!(sys_mmap(&mut manager, 0x20000, PAGE, 1usize << 31 | R), -1);
    // no right at all
    assert_eq!(sys_mmap(&mut manager, 0x20000, PAGE, 0), -1);
    // nothing to map
    assert_eq!(sys_mmap(&mut manager, 0x20000, 0, R), -1);
    // not on a page boundary
    assert_eq!(sys_mmap(&mut manager, 0x20001, PAGE, R), -1);
    assert_eq!(sys_mmap(&mut manager, 0x20fff, PAGE, R), -1);
    // out of the address space
    assert_eq!(sys_mmap(&mut manager, usize::MAX - PAGE + 1, PAGE, R), -1);
    assert_eq!(sys_mmap(&mut manager, 0x20000, usize::MAX, R), -1);
    assert_eq!(layout(&manager), before);
    assert_eq!(manager.frames_available(), free);
    // and once more, with the same outcome
    assert_eq!(sys_mmap(&mut manager, 0x20001, PAGE, R), -1);
    assert_eq!(layout(&manager), before);
}

#[test]
fn mmap_over_a_mapped_page_fails() {
    let mut manager = one_task(64);
    assert_eq!(sys_mmap(&mut manager, 0x10000, 2 * PAGE, R), 1);
    assert_eq!(sys_mmap(&mut manager, 0x20000, 2 * PAGE, R | W), 1);
    let before = layout(&manager);
    let free = manager.frames_available();
    assert_eq!(before, vec![(0x10, 0x12, 0x12), (0x20, 0x22, 0x16)]);
    // the same range, a part of it, a range across both
    assert_eq!(sys_mmap(&mut manager, 0x10000, 2 * PAGE, R), -1);
    assert_eq!(sys_mmap(&mut manager, 0x11000, PAGE, R), -1);
    assert_eq!(sys_mmap(&mut manager, 0x0f000, PAGE + 1, R), -1);
    assert_eq!(sys_mmap(&mut manager, 0x21000, 8 * PAGE, R), -1);
    assert_eq!(sys_mmap(&mut manager, 0x11000, 0x10000, R), -1);
    assert_eq!(layout(&manager), before);
    assert_eq!(manager.frames_available(), free);
    // next to them there is room
    assert_eq!(sys_mmap(&mut manager, 0x12000, PAGE, R), 1);
    assert_eq!(sys_mmap(&mut manager, 0x0f000, PAGE, R), 1);
}

#[test]
fn mmap_fails_when_the_frames_run_out() {
    let mut manager = one_task(3);
    assert_eq!(sys_mmap(&mut manager, 0x10000, 4 * PAGE, R), -1);
    assert_eq!(layout(&manager), vec![]);
    assert_eq!(sys_mmap(&mut manager, 0x10000, 2 * PAGE, R), 1);
    assert_eq!(sys_mmap(&mut manager, 0x20000, 2 * PAGE, R), -1);
    assert_eq!(sys_mmap(&mut manager, 0x20000, PAGE, R), 1);
    assert_eq!(manager.frames_available(), 0);
    assert_eq!(sys_mmap(&mut manager, 0x30000, 1, R), -1);
    assert_eq!(sys_munmap(&mut manager, 0x10000, PAGE), 1);
    assert_eq!(sys_mmap(&mut manager, 0x30000, 1, R), 1);
}

#[test]
fn munmap_needs_every_page_mapped() {
    let mut manager = one_task(64);
    assert_eq!(sys_mmap(&mut manager, 0x10000, 2 * PAGE, R), 1);
    assert_eq!(sys_mmap(&mut manager, 0x13000, PAGE, R), 1);
    let before = layout(&manager);
    let free = manager.frames_available();
    // a hole in the middle, a page before, a page behind, nothing at all
    assert_eq!(sys_munmap(&mut manager, 0x10000, 4 * PAGE), -1);
    assert_eq!(sys_munmap(&mut manager, 0x0f000, 2 * PAGE), -1);
    assert_eq!(sys_munmap(&mut manager, 0x13000, 2 * PAGE), -1);
    assert_eq!(sys_munmap(&mut manager, 0x50000, PAGE), -1);
    // bad arguments
    assert_eq!(sys_munmap(&mut manager, 0x10000, 0), -1);
    assert_eq!(sys_munmap(&mut manager, 0x10001, PAGE), -1);
    assert_eq!(sys_munmap(&mut manager, usize::MAX - PAGE + 1, PAGE), -1);
    assert_eq!(layout(&manager), before);
    assert_eq!(manager.frames_available(), free);
}

#[test]
fn munmap_cuts_areas_back() {
    let mut manager = one_task(64);
    assert_eq!(sys_mmap(&mut manager, 0x10000, 4 * PAGE, R | W), 1);
    assert_eq!(sys_mmap(&mut manager, 0x14000, 2 * PAGE, R), 1);
    assert!(manager.write_current(0x10000, &[1]));
    assert!(manager.write_current(0x13fff, &[2]));
    // the middle of the first area
    assert_eq!(sys_munmap(&mut manager, 0x11000, PAGE + 1), 1);
    assert_eq!(
        layout(&manager),
        vec![(0x10, 0x11, 0x16), (0x13, 0x14, 0x16), (0x14, 0x16, 0x12)]
    );
    assert_eq!(manager.read_current(0x10000, 1), Some(vec![1]));
    assert_eq!(manager.read_current(0x13fff, 1), Some(vec![2]));
    // across two areas
    assert_eq!(sys_munmap(&mut manager, 0x13000, 2 * PAGE), 1);
    assert_eq!(layout(&manager), vec![(0x10, 0x11, 0x16), (0x15, 0x16, 0x12)]);
    assert_eq!(manager.frames_available(), 64 - 2);
}

#[test]
fn calls_without_a_task_fail() {
    let mut manager = TaskManager::new(8);
    assert_eq!(sys_mmap(&mut manager, 0x10000, PAGE, R), -1);
    assert_eq!(sys_munmap(&mut manager, 0x10000, PAGE), -1);
    assert_eq!(sys_sbrk(&mut manager, 0), -1);
    assert_eq!(sys_get_time(&mut manager, 0x10000, 0, 0), -1);
    assert_eq!(sys_task_info(&mut manager, 0x10000, 0), -1);
    assert!(!manager.write_current(0, &[]));
    assert_eq!(manager.read_current(0, 0), None);
}

#[test]
fn sbrk_returns_the_old_break() {
    let mut manager = one_task(16);
    assert_eq!(sys_sbrk(&mut manager, 0), HEAP as isize);
    assert_eq!(sys_sbrk(&mut manager, 100), HEAP as isize);
    assert_eq!(sys_sbrk(&mut manager, 0), (HEAP + 100) as isize);
    assert_eq!(layout(&manager), vec![(0x400, 0x401, 0x16)]);
    assert_eq!(sys_sbrk(&mut manager, -100), (HEAP + 100) as isize);
    assert_eq!(sys_sbrk(&mut manager, 0), HEAP as isize);
    assert_eq!(layout(&manager), vec![]);
    assert_eq!(manager.frames_available(), 16);
}

#[test]
fn sbrk_grows_and_shrinks_by_pages() {
    let mut manager = one_task(16);
    assert_eq!(sys_sbrk(&mut manager, PAGE as i32), HEAP as isize);
    assert_eq!(layout(&manager), vec![(0x400, 0x401, 0x16)]);
    // one byte into the next page
    assert_eq!(sys_sbrk(&mut manager, 1), (HEAP + PAGE) as isize);
    assert_eq!(layout(&manager), vec![(0x400, 0x402, 0x16)]);
    assert_eq!(manager.frames_available(), 14);
    // inside the page
    assert_eq!(sys_sbrk(&mut manager, 1000), (HEAP + PAGE + 1) as isize);
    assert_eq!(layout(&manager), vec![(0x400, 0x402, 0x16)]);
    // the heap can be written, and keeps what was written while it grows
    assert!(manager.write_current(HEAP + 10, &[4, 5, 6]));
    assert_eq!(sys_sbrk(&mut manager, 3 * PAGE as i32), (HEAP + PAGE + 1001) as isize);
    assert_eq!(layout(&manager), vec![(0x400, 0x405, 0x16)]);
    assert_eq!(manager.read_current(HEAP + 10, 3), Some(vec![4, 5, 6]));
    assert_eq!(sys_sbrk(&mut manager, -(4 * PAGE as i32)), (HEAP + 4 * PAGE + 1001) as isize);
    assert_eq!(layout(&manager), vec![(0x400, 0x401, 0x16)]);
    assert_eq!(manager.read_current(HEAP + 10, 3), Some(vec![4, 5, 6]));
    assert_eq!(sys_sbrk(&mut manager, -1001), (HEAP + 1001) as isize);
    assert_eq!(layout(&manager), vec![]);
    assert_eq!(manager.frames_available(), 16);
}

#[test]
fn sbrk_fails_below_the_floor() {
    let mut manager = one_task(16);
    assert_eq!(sys_sbrk(&mut manager, -1), -1);
    assert_eq!(sys_sbrk(&mut manager, i32::MIN), -1);
    assert_eq!(sys_sbrk(&mut manager, 10), HEAP as isize);
    assert_eq!(sys_sbrk(&mut manager, -11), -1);
    assert_eq!(sys_sbrk(&mut manager, 0), (HEAP + 10) as isize);
    assert_eq!(sys_sbrk(&mut manager, -10), (HEAP + 10) as isize);
    assert_eq!(sys_sbrk(&mut manager, 0), HEAP as isize);
}

#[test]
fn sbrk_fails_when_the_frames_run_out() {
    let mut manager = one_task(2);
    assert_eq!(sys_sbrk(&mut manager, 3 * PAGE as i32), -1);
    assert_eq!(layout(&manager), vec![]);
    assert_eq!(sys_sbrk(&mut manager, 2 * PAGE as i32), HEAP as isize);
    assert_eq!(sys_sbrk(&mut manager, 1), -1);
    assert_eq!(sys_sbrk(&mut manager, 0), (HEAP + 2 * PAGE) as isize);
    assert_eq!(manager.frames_available(), 0);
}

#[test]
fn sbrk_fails_where_the_heap_would_grow_into_a_mapping() {
    let mut manager = one_task(16);
    assert_eq!(sys_mmap(&mut manager, HEAP + 2 * PAGE, PAGE, R), 1);
    assert_eq!(sys_sbrk(&mut manager, 2 * PAGE as i32), HEAP as isize);
    assert_eq!(sys_sbrk(&mut manager, 1), -1);
    assert_eq!(sys_sbrk(&mut manager, 0), (HEAP + 2 * PAGE) as isize);
    assert_eq!(layout(&manager), vec![(0x400, 0x402, 0x16), (0x402, 0x403, 0x12)]);
}

#[test]
fn sbrk_of_another_task_is_its_own() {
    let mut manager = TaskManager::new(8);
    manager.add_task(HEAP, 0);
    manager.add_task(2 * HEAP, 0);
    manager.make_ready(0);
    manager.make_ready(1);
    manager.run_first_task();
    assert_eq!(sys_sbrk(&mut manager, 5000), HEAP as isize);
    sys_yield(&mut manager);
    assert_eq!(sys_sbrk(&mut manager, 1), 2 * HEAP as isize);
    assert_eq!(manager.task(0).program_brk(), HEAP + 5000);
    assert_eq!(manager.task(1).program_brk(), 2 * HEAP + 1);
    assert_eq!(manager.frames_available(), 8 - 3);
    // an exit gives the frames back
    assert_eq!(sys_exit(&mut manager, 0), Some(0));
    assert_eq!(manager.frames_available(), 8 - 2);
    assert_eq!(manager.task(1).memory_set().area_count(), 0);
}

#[test]
fn get_time_writes_seconds_and_microseconds() {
    let mut manager = one_task(16);
    assert_eq!(sys_mmap(&mut manager, 0x10000, PAGE, R | W), 1);
    // 2.5 seconds and 3 microseconds
    let ticks = 31_250_000 + 38;
    assert_eq!(sys_get_time(&mut manager, 0x10008, 0, ticks), 0);
    let bytes = manager.read_current(0x10008, TIME_VAL_SIZE).unwrap();
    assert_eq!(word(&bytes[0..8]), 2);
    assert_eq!(word(&bytes[8..16]), 500_003);
    assert_eq!(bytes, TimeVal { sec: 2, usec: 500_003 }.to_bytes());
    // the bytes around it are untouched
    assert_eq!(manager.read_current(0x10000, 8), Some(vec![0; 8]));
    assert_eq!(manager.read_current(0x10018, 8), Some(vec![0; 8]));
    // the time zone is not looked at
    assert_eq!(sys_get_time(&mut manager, 0x10008, usize::MAX, ticks), 0);
}

#[test]
fn get_time_twice_does_not_go_back() {
    let mut manager = one_task(16);
    assert_eq!(sys_mmap(&mut manager, 0x10000, PAGE, R | W), 1);
    let mut last = (0u64, 0u64);
    for ticks in [0usize, 5, 12_499_999, 12_500_000, 12_500_012, 99_999_999_999] {
        assert_eq!(sys_get_time(&mut manager, 0x10000, 0, ticks), 0);
        let bytes = manager.read_current(0x10000, TIME_VAL_SIZE).unwrap();
        let now = (word(&bytes[0..8]), word(&bytes[8..16]));
        assert!(now.1 < 1_000_000);
        assert!(last <= now);
        last = now;
    }
    assert_eq!(last, (7999, 999_999));
}

#[test]
fn get_time_across_a_page_boundary() {
    let mut manager = one_task(16);
    assert_eq!(sys_mmap(&mut manager, 0x10000, PAGE, R | W), 1);
    assert_eq!(sys_mmap(&mut manager, 0x11000, PAGE, R | W), 1);
    let ts = 0x11000 - 5;
    assert_eq!(sys_get_time(&mut manager, ts, 0, 12_500_000 * 3 + 13), 0);
    let bytes = manager.read_current(ts, TIME_VAL_SIZE).unwrap();
    assert_eq!(bytes, TimeVal { sec: 3, usec: 1 }.to_bytes());
}

#[test]
fn get_time_into_memory_that_may_not_be_written_writes_nothing() {
    let mut manager = one_task(16);
    assert_eq!(sys_mmap(&mut manager, 0x10000, PAGE, R | W), 1);
    assert_eq!(sys_mmap(&mut manager, 0x11000, PAGE, R), 1);
    let ticks = 12_500_000 * 3;
    // the second half lies in a page that may only be read
    assert_eq!(sys_get_time(&mut manager, 0x11000 - 8, 0, ticks), -1);
    assert_eq!(manager.read_current(0x11000 - 8, 16), Some(vec![0; 16]));
    // the second half is not mapped
    assert_eq!(sys_get_time(&mut manager, 0x12000 - 8, 0, ticks), -1);
    // the first half is not mapped
    assert_eq!(sys_get_time(&mut manager, 0x10000 - 8, 0, ticks), -1);
    assert_eq!(manager.read_current(0x10000, 8), Some(vec![0; 8]));
    // nothing is mapped
    assert_eq!(sys_get_time(&mut manager, 0, 0, ticks), -1);
    assert_eq!(sys_get_time(&mut manager, usize::MAX - 3, 0, ticks), -1);
    // the last sixteen bytes of the writable page
    assert_eq!(sys_get_time(&mut manager, 0x11000 - 16, 0, ticks), 0);
}

#[test]
fn task_info_of_a_new_task() {
    let mut manager = TaskManager::new(16);
    assert_eq!(manager.add_task(HEAP, 40), Some(0));
    assert_eq!(sys_mmap(&mut manager, 0x10000, PAGE, R | W), 1);
    // 100 ms on the clock, 40 of them before the task was made
    assert_eq!(sys_task_info(&mut manager, 0x10000, 12_500 * 100), 0);
    let bytes = manager.read_current(0x10000, TASK_INFO_SIZE).unwrap();
    assert_eq!(bytes.len(), 2016);
    assert_eq!(bytes[0], TaskStatus::UnInit.code());
    assert!(bytes[1..2008].iter().all(|b| *b == 0));
    assert_eq!(word(&bytes[2008..2016]), 60);
}

#[test]
fn task_info_after_a_yield() {
    let mut manager = one_task(16);
    assert_eq!(sys_mmap(&mut manager, 0x10000, PAGE, R | W), 1);
    assert_eq!(sys_task_info(&mut manager, 0x10000, 0), 0);
    let bytes = manager.read_current(0x10000, TASK_INFO_SIZE).unwrap();
    assert_eq!(bytes[0], TaskStatus::Running.code());
    assert!(bytes[1..].iter().all(|b| *b == 0));
    // the trap handler counts the call, then the task yields
    manager.record_syscall(SYSCALL_YIELD);
    assert_eq!(sys_yield(&mut manager), 0);
    assert_eq!(sys_task_info(&mut manager, 0x10000, 12_500 * 7), 0);
    let bytes = manager.read_current(0x10000, TASK_INFO_SIZE).unwrap();
    assert_eq!(bytes[0], TaskStatus::Running.code());
    let at = 4 + 4 * SYSCALL_YIELD;
    assert_eq!(&bytes[at..at + 4], &[1, 0, 0, 0]);
    for id in 0..500 {
        if id != SYSCALL_YIELD {
            assert_eq!(&bytes[4 + 4 * id..8 + 4 * id], &[0, 0, 0, 0]);
        }
    }
    assert_eq!(word(&bytes[2008..2016]), 7);
    // reading the counters does not reset them
    assert_eq!(sys_task_info(&mut manager, 0x10000, 12_500 * 7), 0);
    assert_eq!(manager.read_current(0x10000, TASK_INFO_SIZE).unwrap(), bytes);
}

#[test]
fn task_info_needs_all_its_bytes_writable() {
    let mut manager = one_task(16);
    assert_eq!(sys_mmap(&mut manager, 0x10000, PAGE, R | W), 1);
    assert_eq!(sys_task_info(&mut manager, 0x11000 - 2015, 0), -1);
    assert_eq!(manager.read_current(0x10000, PAGE), Some(vec![0; PAGE]));
    assert_eq!(sys_task_info(&mut manager, 0x11000 - 2016, 0), 0);
    assert_eq!(sys_task_info(&mut manager, 0x20000, 0), -1);
}

#[test]
fn task_info_of_a_clock_that_reads_less_than_at_creation() {
    let mut manager = TaskManager::new(16);
    assert_eq!(manager.add_task(HEAP, 500), Some(0));
    assert_eq!(sys_mmap(&mut manager, 0x10000, PAGE, R | W), 1);
    assert_eq!(sys_task_info(&mut manager, 0x10000, 12_500 * 499), 0);
    let bytes = manager.read_current(0x10000, TASK_INFO_SIZE).unwrap();
    assert_eq!(word(&bytes[2008..2016]), 0);
}

#[test]
fn task_info_bytes_follow_the_layout() {
    let mut counts = [0u32; 500];
    counts[0] = 0x0403_0201;
    counts[499] = 9;
    let info = TaskInfo { status: TaskStatus::Exited, syscall_times: counts, time: 0x0a0b };
    let bytes = info.to_bytes();
    assert_eq!(bytes.len(), TASK_INFO_SIZE);
    assert_eq!(&bytes[0..8], &[3, 0, 0, 0, 1, 2, 3, 4]);
    assert_eq!(&bytes[2000..2008], &[9, 0, 0, 0, 0, 0, 0, 0]);
    assert_eq!(&bytes[2008..2016], &[0x0b, 0x0a, 0, 0, 0, 0, 0, 0]);
}

#[test]
fn a_write_from_the_kernel_respects_user_access() {
    let mut manager = one_task(16);
    let kernel_only = MapPermission { readable: true, writable: true, executable: false, user: false };
    assert!(manager.map_current(0x50, 0x51, kernel_only));
    assert_eq!(sys_get_time(&mut manager, 0x50000, 0, 1), -1);
    assert_eq!(manager.read_current(0x50000, 1), None);
    assert!(manager.unmap_current(0x50, 0x51));
    assert!(!manager.unmap_current(0x50, 0x51));
    assert!(!manager.map_current(0x51, 0x51, kernel_only));
    assert_eq!(manager.change_program_brk(1), Some(HEAP));
}
