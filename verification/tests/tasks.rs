use syscall_core::syscall::process::{sys_exit, sys_yield};
use syscall_core::task::control_block::TaskControlBlock;
use syscall_core::task::manager::TaskManager;
use syscall_core::task::status::TaskStatus;

fn statuses(manager: &TaskManager) -> Vec<TaskStatus> {
    let mut out = Vec::new();
    for i in 0..manager.task_count() {
        out.push(manager.task(i).status());
    }
    out
}

fn three_ready() -> TaskManager {
    let mut manager = TaskManager::new(64);
    for i in 0..3 {
        assert_eq!(manager.add_task(0x10000, 0), Some(i));
        assert!(manager.make_ready(i));
    }
    manager
}

#[test]
fn a_new_manager_has_no_task() {
    let mut manager = TaskManager::new(4);
    assert_eq!(manager.task_count(), 0);
    assert_eq!(manager.current(), None);
    assert_eq!(manager.frames_available(), 4);
    assert_eq!(manager.find_next_task(), None);
    assert_eq!(manager.run_first_task(), None);
    assert_eq!(sys_yield(&mut manager), 0);
    assert_eq!(sys_exit(&mut manager, 1), None);
    assert!(manager.current_task_stats().is_none());
}

#[test]
fn a_task_needs_an_aligned_heap_bottom() {
    let mut manager = TaskManager::new(4);
    assert_eq!(manager.add_task(0x10001, 0), None);
    assert_eq!(manager.add_task(usize::MAX - 4095, 0), None);
    assert_eq!(manager.task_count(), 0);
    assert_eq!(manager.add_task(0, 0), Some(0));
    assert!(TaskControlBlock::new(4096, 7).is_some());
    assert!(TaskControlBlock::new(4097, 7).is_none());
}

#[test]
fn a_new_task_is_not_ready_until_set_up() {
    let mut manager = TaskManager::new(4);
    assert_eq!(manager.add_task(0x10000, 5), Some(0));
    assert_eq!(manager.task(0).status(), TaskStatus::UnInit);
    assert_eq!(manager.task(0).created_ms(), 5);
    assert_eq!(manager.task(0).exit_code(), None);
    assert_eq!(manager.task(0).heap_bottom(), 0x10000);
    assert_eq!(manager.task(0).program_brk(), 0x10000);
    assert_eq!(manager.run_first_task(), None);
    assert!(manager.make_ready(0));
    assert!(!manager.make_ready(0));
    assert!(!manager.make_ready(1));
    assert_eq!(manager.task(0).status(), TaskStatus::Ready);
    assert_eq!(manager.run_first_task(), Some(0));
    assert_eq!(manager.task(0).status(), TaskStatus::Running);
    // a second start changes nothing
    assert_eq!(manager.run_first_task(), Some(0));
}

#[test]
fn yield_goes_round_the_table() {
    let mut manager = three_ready();
    assert_eq!(manager.run_first_task(), Some(0));
    assert_eq!(manager.find_next_task(), Some(1));
    assert_eq!(sys_yield(&mut manager), 0);
    assert_eq!(manager.current(), Some(1));
    assert_eq!(statuses(&manager), vec![TaskStatus::Ready, TaskStatus::Running, TaskStatus::Ready]);
    assert_eq!(sys_yield(&mut manager), 0);
    assert_eq!(manager.current(), Some(2));
    assert_eq!(sys_yield(&mut manager), 0);
    assert_eq!(manager.current(), Some(0));
    assert_eq!(statuses(&manager), vec![TaskStatus::Running, TaskStatus::Ready, TaskStatus::Ready]);
}

#[test]
fn a_lone_task_yields_to_itself() {
    let mut manager = TaskManager::new(4);
    manager.add_task(0x10000, 0);
    manager.make_ready(0);
    manager.run_first_task();
    assert_eq!(sys_yield(&mut manager), 0);
    assert_eq!(manager.current(), Some(0));
    assert_eq!(manager.task(0).status(), TaskStatus::Running);
}

#[test]
fn yield_passes_over_tasks_that_are_not_ready() {
    let mut manager = TaskManager::new(4);
    for _ in 0..4 {
        manager.add_task(0x10000, 0);
    }
    manager.make_ready(0);
    manager.make_ready(3);
    assert_eq!(manager.run_first_task(), Some(0));
    assert_eq!(manager.suspend_current_and_run_next(), Some(3));
    assert_eq!(
        statuses(&manager),
        vec![TaskStatus::Ready, TaskStatus::UnInit, TaskStatus::UnInit, TaskStatus::Running]
    );
    assert_eq!(manager.suspend_current_and_run_next(), Some(0));
}

#[test]
fn exit_ends_the_task_for_good() {
    let mut manager = three_ready();
    manager.run_first_task();
    assert_eq!(sys_exit(&mut manager, 7), Some(1));
    assert_eq!(manager.task(0).status(), TaskStatus::Exited);
    assert_eq!(manager.task(0).exit_code(), Some(7));
    assert_eq!(statuses(&manager), vec![TaskStatus::Exited, TaskStatus::Running, TaskStatus::Ready]);
    // the round no longer stops at the task that exited
    sys_yield(&mut manager);
    assert_eq!(manager.current(), Some(2));
    sys_yield(&mut manager);
    assert_eq!(manager.current(), Some(1));
    assert_eq!(sys_exit(&mut manager, -3), Some(2));
    assert_eq!(sys_exit(&mut manager, 0), None);
    assert_eq!(statuses(&manager), vec![TaskStatus::Exited; 3]);
    assert_eq!(manager.task(1).exit_code(), Some(-3));
    assert_eq!(manager.task(2).exit_code(), Some(0));
    // no way out of the last state
    assert_eq!(sys_exit(&mut manager, 9), None);
    assert_eq!(sys_yield(&mut manager), 0);
    assert_eq!(manager.run_first_task(), None);
    assert!(!manager.make_ready(0));
    assert_eq!(statuses(&manager), vec![TaskStatus::Exited; 3]);
    assert_eq!(manager.task(2).exit_code(), Some(0));
}

#[test]
fn state_codes() {
    assert_eq!(TaskStatus::UnInit.code(), 0);
    assert_eq!(TaskStatus::Ready.code(), 1);
    assert_eq!(TaskStatus::Running.code(), 2);
    assert_eq!(TaskStatus::Exited.code(), 3);
}

#[test]
fn calls_are_counted_for_the_current_task() {
    let mut manager = three_ready();
    manager.run_first_task();
    manager.record_syscall(124);
    manager.record_syscall(124);
    manager.record_syscall(499);
    manager.record_syscall(500);
    manager.record_syscall(usize::MAX);
    let (status, counts, created) = manager.current_task_stats().unwrap();
    assert_eq!(status, TaskStatus::Running);
    assert_eq!(created, 0);
    assert_eq!(counts[124], 2);
    assert_eq!(counts[499], 1);
    assert_eq!(counts.iter().map(|c| *c as u64).sum::<u64>(), 3);
    sys_yield(&mut manager);
    manager.record_syscall(124);
    assert_eq!(manager.task(0).syscall_times()[124], 2);
    assert_eq!(manager.task(1).syscall_times()[124], 1);
    assert_eq!(manager.task(2).syscall_times()[124], 0);
}

#[test]
fn a_control_block_by_itself() {
    let mut task = TaskControlBlock::new(0x3000, 9).unwrap();
    assert_eq!(task.status(), TaskStatus::UnInit);
    task.record_syscall(3);
    task.record_syscall(3);
    assert_eq!(task.syscall_times()[3], 2);
    assert_eq!(task.change_program_brk(4097, 2), Some(0x3000));
    assert_eq!(task.change_program_brk(1, 0), Some(0x3000 + 4097));
    assert_eq!(task.change_program_brk(4096, 0), None);
    assert_eq!(task.memory_set().pages(), 2);
    assert!(task.write_bytes(0x3000, &[1, 2, 3]));
    assert_eq!(task.unmap(4, 5), 1);
    assert_eq!(task.memory_set().pages(), 1);
    assert_eq!(task.memory_set().read_bytes(0x3001, 2), Some(vec![2, 3]));
    task.map(7, 9, syscall_core::mm::permission::MapPermission::user_read());
    assert_eq!(task.memory_set().pages(), 3);
    assert_eq!(task.program_brk(), 0x3000 + 4098);
}
