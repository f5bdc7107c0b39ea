//! The task manager: the table of tasks, the frame pool they draw on, and
//! the choice of the task that runs.
use crate::config::MAX_SYSCALL_NUM;
use crate::mm::address::{page_limit, spec_is_aligned};
use crate::mm::frame_allocator::FrameAllocator;
use crate::mm::layout::{loaded, span_allows};
use crate::mm::lemmas::lemma_total_pages_bounds;
use crate::mm::permission::MapPermission;
use crate::task::control_block::{TaskControlBlock, TaskView};
use crate::task::status::TaskStatus;
use crate::task::table::{
    lemma_mod_step, lemma_sum_pages_bounds, lemma_sum_pages_push, lemma_sum_pages_update,
    ManagerView, scan_ready,
};
use vstd::prelude::*;

verus! {

/// The kernel's table of tasks together with the pool of frames.
pub struct TaskManager {
    tasks: Vec<TaskControlBlock>,
    current: usize,
    frames: FrameAllocator,
}

impl View for TaskManager {
    type V = ManagerView;

    closed spec fn view(&self) -> ManagerView {
        ManagerView {
            tasks: Seq::new(self.tasks@.len(), |i: int| self.tasks@[i]@),
            current: self.current as int,
            capacity: self.frames.spec_capacity(),
            allocated: self.frames.spec_allocated(),
        }
    }
}

impl TaskManager {
    /// The invariant of every manager that the library hands out.
    pub closed spec fn wf(&self) -> bool {
        &&& self@.wf()
        &&& self.frames.wf()
        &&& forall|i: int| 0 <= i < self.tasks@.len() ==> (#[trigger] self.tasks@[i]).wf()
    }

    /// A manager that the library hands out has a proper view.
    pub proof fn lemma_wf(&self)
        requires
            self.wf(),
        ensures
            self@.wf(),
    {
    }

    /// A manager without tasks, over a pool of `frames` frames.
    pub fn new(frames: usize) -> (manager: TaskManager)
        ensures
            manager.wf(),
            manager@ == (ManagerView {
                tasks: Seq::<TaskView>::empty(),
                current: 0,
                capacity: frames as int,
                allocated: 0,
            }),
    {
        let manager = TaskManager { tasks: Vec::new(), current: 0, frames: FrameAllocator::new(frames) };
        assert(manager@.tasks =~= Seq::<TaskView>::empty());
        manager
    }

    /// Number of tasks in the table.
    pub fn task_count(&self) -> (count: usize)
        ensures
            count == self@.tasks.len(),
    {
        self.tasks.len()
    }

    /// Index of the current task, if there is one.
    pub fn current(&self) -> (index: Option<usize>)
        requires
            self.wf(),
        ensures
            index.is_some() == self@.has_task(),
            index matches Some(i) ==> i == self@.current,
    {
        if self.tasks.len() == 0 {
            None
        } else {
            Some(self.current)
        }
    }

    /// The task at index `id`.
    pub fn task(&self, id: usize) -> (task: &TaskControlBlock)
        requires
            self.wf(),
            id < self@.tasks.len(),
        ensures
            task.wf(),
            task@ == self@.tasks[id as int],
    {
        &self.tasks[id]
    }

    /// Number of frames left in the pool.
    pub fn frames_available(&self) -> (count: usize)
        requires
            self.wf(),
        ensures
            count == self@.available(),
    {
        self.frames.available()
    }

    /// Adds a task with nothing mapped and an empty heap at `heap_bottom`,
    /// created at time `created_ms`.  Returns its index in the table, or
    /// `None`, with nothing changed, where `heap_bottom` is not on a page
    /// boundary or lies above the largest address a break can have.
    pub fn add_task(&mut self, heap_bottom: usize, created_ms: usize) -> (id: Option<usize>)
        requires
            old(self).wf(),
        ensures
            final(self).wf(),
            id.is_some() == (spec_is_aligned(heap_bottom as int) && heap_bottom <= isize::MAX),
            (id matches Some(i) ==> {
                &&& i == old(self)@.tasks.len()
                &&& final(self)@ == old(self)@.with_new(
                    TaskView {
                        status: TaskStatus::UnInit,
                        syscall_times: Seq::new(MAX_SYSCALL_NUM as nat, |i: int| 0u32),
                        created_ms: created_ms as int,
                        exit_code: None,
                        space: Seq::empty(),
                        heap_bottom: heap_bottom as int,
                        program_brk: heap_bottom as int,
                    },
                )
            }),
            id is None ==> final(self)@ == old(self)@,
    {
        let ghost before = self@;
        match TaskControlBlock::new(heap_bottom, created_ms) {
            None => None,
            Some(task) => {
                let id = self.tasks.len();
                proof {
                    task.lemma_wf();
                    lemma_sum_pages_push(before.tasks, task@);
                }
                self.tasks.push(task);
                assert(self@.tasks =~= before.tasks.push(task@));
                Some(id)
            },
        }
    }

    /// The first ready task among all, taken in table order from index
    /// `from` on and going round at the end of the table.
    fn find_ready(&self, from: usize) -> (found: Option<usize>)
        requires
            self.wf(),
            from <= self@.tasks.len(),
        ensures
            (match found {
                Some(i) => scan_ready(self@.tasks, from as int, self@.tasks.len() as int) == Some(
                    i as int,
                ) && i < self@.tasks.len() && self@.tasks[i as int].status == TaskStatus::Ready,
                None => scan_ready(self@.tasks, from as int, self@.tasks.len() as int) is None,
            }),
    {
        let n = self.tasks.len();
        if n == 0 {
            return None;
        }
        let mut index: usize = if from == n {
            0
        } else {
            from
        };
        let mut k: usize = 0;
        proof {
            if from == n {
                lemma_mod_step(n - 1, n as int);
                vstd::arithmetic::div_mod::lemma_small_mod((n - 1) as nat, n as nat);
            } else {
                vstd::arithmetic::div_mod::lemma_small_mod(from as nat, n as nat);
            }
        }
        while k < n
            invariant
                self.wf(),
                n == self@.tasks.len(),
                n > 0,
                k <= n,
                index < n,
                index == (from + k) % (n as int),
                scan_ready(self@.tasks, from as int, n as int) == scan_ready(
                    self@.tasks,
                    from + k,
                    n - k,
                ),
            decreases n - k,
        {
            if self.tasks[index].status() == TaskStatus::Ready {
                return Some(index);
            }
            proof {
                lemma_mod_step(from + k, n as int);
            }
            index = if index + 1 == n {
                0
            } else {
                index + 1
            };
            k += 1;
        }
        None
    }

    /// The task that is the next to run after the current one, if any task
    /// is ready.
    pub fn find_next_task(&self) -> (next: Option<usize>)
        requires
            self.wf(),
        ensures
            (match next {
                Some(i) => self@.next_ready() == Some(i as int) && i < self@.tasks.len()
                    && self@.tasks[i as int].status == TaskStatus::Ready,
                None => self@.next_ready() is None,
            }),
    {
        if self.tasks.len() == 0 {
            None
        } else {
            self.find_ready(self.current + 1)
        }
    }

    /// Puts the task `pick`, which is ready, on the processor; no task is
    /// running.
    fn dispatch(&mut self, pick: Option<usize>) -> (running: Option<usize>)
        requires
            old(self).wf(),
            old(self)@.running() is None,
            pick matches Some(i) ==> i < old(self)@.tasks.len() && old(self)@.tasks[i as int].status
                == TaskStatus::Ready,
        ensures
            final(self).wf(),
            (final(self)@ == old(self)@.dispatched(
                match pick {
                    Some(i) => Some(i as int),
                    None => None,
                },
            )),
            running == pick,
            (match running {
                Some(i) => final(self)@.running() == Some(i as int),
                None => final(self)@.running() is None,
            }),
    {
        let ghost before = self@;
        match pick {
            Some(i) => {
                self.tasks[i].set_status(TaskStatus::Running);
                self.current = i;
                proof {
                    let task = before.tasks[i as int].with_status(TaskStatus::Running);
                    assert(self@.tasks =~= before.tasks.update(i as int, task));
                    lemma_sum_pages_update(before.tasks, i as int, task);
                    assert forall|j: int| 0 <= j < self@.tasks.len() implies (
                    #[trigger] self@.tasks[j]).wf() by {
                        assert(before.tasks[j].wf());
                    }
                }
                Some(i)
            },
            None => None,
        }
    }

    /// Sets up task `id`: a task not yet ready becomes ready.  Returns
    /// whether it did.
    pub fn make_ready(&mut self, id: usize) -> (done: bool)
        requires
            old(self).wf(),
        ensures
            final(self).wf(),
            final(self)@ == old(self)@.readied(id as int),
            done == (id < old(self)@.tasks.len() && old(self)@.tasks[id as int].status
                == TaskStatus::UnInit),
    {
        let ghost before = self@;
        if id < self.tasks.len() && self.tasks[id].status() == TaskStatus::UnInit {
            self.tasks[id].set_status(TaskStatus::Ready);
            proof {
                let task = before.tasks[id as int].with_status(TaskStatus::Ready);
                assert(self@.tasks =~= before.tasks.update(id as int, task));
                lemma_sum_pages_update(before.tasks, id as int, task);
                assert forall|j: int| 0 <= j < self@.tasks.len() implies (
                #[trigger] self@.tasks[j]).wf() by {
                    assert(before.tasks[j].wf());
                }
            }
            true
        } else {
            false
        }
    }

    /// Puts the first ready task on the processor, unless a task is running
    /// already.  Returns the task that is running then, if any.
    pub fn run_first_task(&mut self) -> (running: Option<usize>)
        requires
            old(self).wf(),
        ensures
            final(self).wf(),
            final(self)@ == old(self)@.started(),
            (match running {
                Some(i) => final(self)@.running() == Some(i as int),
                None => final(self)@.running() is None,
            }),
    {
        if self.tasks.len() > 0 && self.tasks[self.current].status() == TaskStatus::Running {
            return Some(self.current);
        }
        let pick = self.find_ready(0);
        self.dispatch(pick)
    }

    /// Takes the running task off the processor to wait.
    fn suspend_current(&mut self)
        requires
            old(self).wf(),
        ensures
            final(self).wf(),
            final(self)@ == old(self)@.suspended(),
            final(self)@.running() is None,
    {
        let ghost before = self@;
        if self.tasks.len() > 0 && self.tasks[self.current].status() == TaskStatus::Running {
            let current = self.current;
            self.tasks[current].set_status(TaskStatus::Ready);
            proof {
                let task = before.task().with_status(TaskStatus::Ready);
                assert(self@.tasks =~= before.tasks.update(before.current, task));
                lemma_sum_pages_update(before.tasks, before.current, task);
                assert forall|j: int| 0 <= j < self@.tasks.len() implies (
                #[trigger] self@.tasks[j]).wf() by {
                    assert(before.tasks[j].wf());
                }
            }
        }
    }

    /// The running task gives up the processor: it waits, and the next
    /// ready task in the round, which is the same one where no other is
    /// ready, runs.  Returns the task that is running then, if any.
    pub fn suspend_current_and_run_next(&mut self) -> (running: Option<usize>)
        requires
            old(self).wf(),
        ensures
            final(self).wf(),
            final(self)@ == old(self)@.yielded(),
            (match running {
                Some(i) => final(self)@.running() == Some(i as int),
                None => final(self)@.running() is None,
            }),
    {
        self.suspend_current();
        let pick = self.find_next_task();
        self.dispatch(pick)
    }

    /// Ends the running task with `code` and gives its frames back to the
    /// pool.
    fn end_current(&mut self, code: i32)
        requires
            old(self).wf(),
        ensures
            final(self).wf(),
            final(self)@ == old(self)@.ended(code),
            final(self)@.running() is None,
    {
        let ghost before = self@;
        if self.tasks.len() > 0 && self.tasks[self.current].status() == TaskStatus::Running {
            let current = self.current;
            proof {
                assert forall|i: int| 0 <= i < before.tasks.len() implies (
                #[trigger] before.tasks[i]).pages() >= 0 by {
                    assert(before.tasks[i].wf());
                    lemma_total_pages_bounds(before.tasks[i].space);
                }
                lemma_sum_pages_bounds(before.tasks);
            }
            let freed = self.tasks[current].exit(code);
            self.frames.release(freed);
            proof {
                let task = before.task().exited(code);
                assert(self@.tasks =~= before.tasks.update(before.current, task));
                lemma_sum_pages_update(before.tasks, before.current, task);
                assert forall|j: int| 0 <= j < self@.tasks.len() implies (
                #[trigger] self@.tasks[j]).wf() by {
                    assert(before.tasks[j].wf());
                    if j == before.current {
                        self.tasks@[j].lemma_wf();
                    }
                }
            }
        }
    }

    /// The running task exits with `code`: it is ended for good, its
    /// frames go back to the pool, and the next ready task in the round
    /// runs.  Returns the task that is running then; there is none once
    /// every task has exited.
    pub fn exit_current_and_run_next(&mut self, code: i32) -> (running: Option<usize>)
        requires
            old(self).wf(),
        ensures
            final(self).wf(),
            final(self)@ == old(self)@.exited(code),
            (match running {
                Some(i) => final(self)@.running() == Some(i as int),
                None => final(self)@.running() is None,
            }),
    {
        self.end_current(code);
        let pick = self.find_next_task();
        self.dispatch(pick)
    }

    /// What holds of the sums of a proper table: no task holds more frames
    /// than are handed out.
    proof fn lemma_current_pages(&self)
        requires
            self.wf(),
            self@.has_task(),
        ensures
            0 <= self@.task().pages() <= self@.allocated,
            self@.task().wf(),
    {
        let tasks = self@.tasks;
        assert forall|i: int| 0 <= i < tasks.len() implies (#[trigger] tasks[i]).pages() >= 0 by {
            assert(tasks[i].wf());
            lemma_total_pages_bounds(tasks[i].space);
        }
        lemma_sum_pages_bounds(tasks);
        assert(tasks[self@.current].wf());
    }

    /// What replacing the current task does to the invariant: where the
    /// new task is proper and nothing else changed, the table is proper.
    proof fn lemma_replaced(&self, before: ManagerView)
        requires
            before.wf(),
            before.has_task(),
            self.frames.wf(),
            self@.current == before.current,
            self@.capacity == before.capacity,
            self.tasks@.len() == before.tasks.len(),
            forall|i: int| 0 <= i < self.tasks@.len() ==> (#[trigger] self.tasks@[i]).wf(),
            forall|i: int|
                0 <= i < before.tasks.len() && i != before.current ==> (#[trigger] self.tasks@[i])@
                    == before.tasks[i],
            self.tasks@[before.current]@.status == before.task().status,
            self@.allocated == before.allocated - before.task().pages()
                + self.tasks@[before.current]@.pages(),
        ensures
            self.wf(),
            self@ == before.with_task(self.tasks@[before.current]@),
    {
        let task = self.tasks@[before.current]@;
        assert(self@.tasks =~= before.tasks.update(before.current, task));
        lemma_sum_pages_update(before.tasks, before.current, task);
        self.frames.lemma_wf();
        assert forall|j: int| 0 <= j < self@.tasks.len() implies (#[trigger] self@.tasks[j]).wf() by {
            self.tasks@[j].lemma_wf();
        }
    }

    /// Counts one more call of number `id` for the current task.
    pub fn record_syscall(&mut self, id: usize)
        requires
            old(self).wf(),
        ensures
            final(self).wf(),
            final(self)@ == old(self)@.counted(id as int),
    {
        let ghost before = self@;
        if self.tasks.len() > 0 {
            let current = self.current;
            self.tasks[current].record_syscall(id);
            proof {
                self.lemma_replaced(before);
            }
        }
    }

    /// The state of the current task, its call counters and the time of
    /// its creation in milliseconds; `None` where there is no task.
    pub fn current_task_stats(&self) -> (stats: Option<(TaskStatus, [u32; MAX_SYSCALL_NUM], usize)>)
        requires
            self.wf(),
        ensures
            stats.is_some() == self@.has_task(),
            (stats matches Some(s) ==> {
                &&& s.0 == self@.task().status
                &&& s.1@ == self@.task().syscall_times
                &&& s.2 == self@.task().created_ms
            }),
    {
        if self.tasks.len() == 0 {
            None
        } else {
            let task = &self.tasks[self.current];
            Some((task.status(), task.syscall_times(), task.created_ms()))
        }
    }

    /// Maps the pages `start..end` afresh for the current task, with the
    /// rights `perm` and every byte zero.  Returns whether it did; where it
    /// did not, nothing has changed.
    pub fn map_current(&mut self, start: usize, end: usize, perm: MapPermission) -> (done: bool)
        requires
            old(self).wf(),
        ensures
            final(self).wf(),
            done == old(self)@.can_map(start as int, end as int),
            done ==> final(self)@ == old(self)@.mapped(start as int, end as int, perm),
            !done ==> final(self)@ == old(self)@,
    {
        let ghost before = self@;
        if self.tasks.len() == 0 || start >= end || end > page_limit() {
            return false;
        }
        let current = self.current;
        if end - start > self.frames.available() || !self.tasks[current].memory_set().is_free(
            start,
            end,
        ) {
            return false;
        }
        proof {
            self.lemma_current_pages();
        }
        self.tasks[current].map(start, end, perm);
        let taken = self.frames.reserve(end - start);
        proof {
            self.lemma_replaced(before);
        }
        true
    }

    /// Unmaps the pages `start..end` for the current task, every one of
    /// which must be mapped.  Returns whether it did; where it did not,
    /// nothing has changed.
    pub fn unmap_current(&mut self, start: usize, end: usize) -> (done: bool)
        requires
            old(self).wf(),
        ensures
            final(self).wf(),
            done == old(self)@.can_unmap(start as int, end as int),
            done ==> final(self)@ == old(self)@.unmapped(start as int, end as int),
            !done ==> final(self)@ == old(self)@,
    {
        let ghost before = self@;
        if self.tasks.len() == 0 {
            return false;
        }
        let current = self.current;
        if !self.tasks[current].memory_set().covers(start, end) {
            return false;
        }
        proof {
            self.lemma_current_pages();
        }
        let freed = self.tasks[current].unmap(start, end);
        proof {
            self.tasks@[current as int].lemma_wf();
            lemma_total_pages_bounds(self.tasks@[current as int]@.space);
        }
        self.frames.release(freed);
        proof {
            self.lemma_replaced(before);
        }
        true
    }

    /// Moves the end of the current task's heap by `size` bytes.  Returns
    /// the end of the heap as it was, or `None`, with nothing changed,
    /// where the move is not allowed.
    pub fn change_program_brk(&mut self, size: i32) -> (old_brk: Option<usize>)
        requires
            old(self).wf(),
        ensures
            final(self).wf(),
            old_brk.is_some() == old(self)@.can_move_brk(size as int),
            (old_brk matches Some(brk) ==> {
                &&& brk == old(self)@.task().program_brk
                &&& final(self)@ == old(self)@.brk_moved(size as int)
            }),
            old_brk is None ==> final(self)@ == old(self)@,
    {
        let ghost before = self@;
        if self.tasks.len() == 0 {
            return None;
        }
        let current = self.current;
        proof {
            self.lemma_current_pages();
        }
        let budget = self.frames.available();
        let held = self.tasks[current].memory_set().pages();
        let old_brk = self.tasks[current].change_program_brk(size, budget);
        proof {
            self.tasks@[current as int].lemma_wf();
            lemma_total_pages_bounds(self.tasks@[current as int]@.space);
        }
        let holds = self.tasks[current].memory_set().pages();
        if holds >= held {
            let taken = self.frames.reserve(holds - held);
        } else {
            self.frames.release(held - holds);
        }
        proof {
            self.lemma_replaced(before);
            if old_brk is None {
                assert(self@.tasks =~= before.tasks);
            }
        }
        old_brk
    }

    /// Copies `bytes` into the memory of the current task at address
    /// `addr`, as a store from user code would.  Returns whether it did;
    /// where it did not, nothing was written.
    pub fn write_current(&mut self, addr: usize, bytes: &[u8]) -> (done: bool)
        requires
            old(self).wf(),
        ensures
            final(self).wf(),
            done == old(self)@.can_write(addr as int, bytes@.len() as int),
            done ==> final(self)@ == old(self)@.written(addr as int, bytes@),
            !done ==> final(self)@ == old(self)@,
    {
        let ghost before = self@;
        if self.tasks.len() == 0 {
            return false;
        }
        let current = self.current;
        let done = self.tasks[current].write_bytes(addr, bytes);
        proof {
            self.lemma_replaced(before);
            if !done {
                assert(self@.tasks =~= before.tasks);
            }
        }
        done
    }

    /// Copies `len` bytes out of the memory of the current task from
    /// address `addr` on, as loads from user code would.
    pub fn read_current(&self, addr: usize, len: usize) -> (bytes: Option<Vec<u8>>)
        requires
            self.wf(),
        ensures
            bytes.is_some() == (self@.has_task() && span_allows(
                self@.task().space,
                addr as int,
                len as int,
                MapPermission::spec_user_read(),
            )),
            bytes matches Some(b) ==> b@ == loaded(self@.task().space, addr as int, len as int),
    {
        if self.tasks.len() == 0 {
            None
        } else {
            self.tasks[self.current].memory_set().read_bytes(addr, len)
        }
    }
}

} // verus!
