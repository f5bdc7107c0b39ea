//! The task table as mathematics: which task runs next, and what yielding,
//! exiting and the memory calls of the current task do to the table.
use crate::mm::address::spec_page_limit;
use crate::mm::area::AreaView;
use crate::mm::layout::{
    inserted, range_free, range_mapped, removed, span_allows, stored, total_pages,
};
use crate::mm::lemmas::{
    lemma_inserted_ordered, lemma_removed_ordered, lemma_removed_pages, lemma_stored_ordered,
    lemma_total_pages_bounds, lemma_total_pages_by_range,
};
use crate::mm::permission::MapPermission;
use crate::task::control_block::TaskView;
use crate::task::status::TaskStatus;
use vstd::arithmetic::div_mod::{lemma_fundamental_div_mod, lemma_fundamental_div_mod_converse};
use vstd::prelude::*;

verus! {

/// Number of frames that the tasks hold together.
pub open spec fn sum_pages(tasks: Seq<TaskView>) -> int
    decreases tasks.len(),
{
    if tasks.len() == 0 {
        0
    } else {
        sum_pages(tasks.drop_last()) + tasks.last().pages()
    }
}

/// The first ready task among `steps` tasks taken in table order from
/// index `from` on, going round to the start of the table at its end.
pub open spec fn scan_ready(tasks: Seq<TaskView>, from: int, steps: int) -> Option<int>
    decreases steps,
{
    if steps <= 0 || tasks.len() == 0 {
        None
    } else if tasks[from % (tasks.len() as int)].status == TaskStatus::Ready {
        Some(from % (tasks.len() as int))
    } else {
        scan_ready(tasks, from + 1, steps - 1)
    }
}

/// The place in a table of `len` tasks that is reached `steps` places
/// after place `from`, going round at the end.
pub open spec fn round_index(len: int, from: int, steps: int) -> int {
    (from + steps) % len
}

/// What the task manager is, mathematically: the table of tasks, the index
/// of the current task, and the two counts of the frame pool.
pub struct ManagerView {
    /// The tasks, in table order.
    pub tasks: Seq<TaskView>,
    /// Index of the task that system calls are made for.
    pub current: int,
    /// Number of frames in the pool.
    pub capacity: int,
    /// Number of frames that the tasks hold.
    pub allocated: int,
}

impl ManagerView {
    /// A proper table: every task is proper, the current index points at a
    /// task unless there is none, no task but the current one is running,
    /// and the frames handed out are those that the tasks hold.
    pub open spec fn wf(self) -> bool {
        &&& forall|i: int| 0 <= i < self.tasks.len() ==> (#[trigger] self.tasks[i]).wf()
        &&& if self.tasks.len() == 0 {
            self.current == 0
        } else {
            0 <= self.current < self.tasks.len()
        }
        &&& forall|i: int|
            0 <= i < self.tasks.len() && (#[trigger] self.tasks[i]).status == TaskStatus::Running
                ==> i == self.current
        &&& self.allocated == sum_pages(self.tasks)
        &&& 0 <= self.allocated <= self.capacity <= usize::MAX
    }

    /// Whether there is a current task.
    pub open spec fn has_task(self) -> bool {
        self.tasks.len() > 0
    }

    /// The current task.
    pub open spec fn task(self) -> TaskView {
        self.tasks[self.current]
    }

    /// Number of frames left in the pool.
    pub open spec fn available(self) -> int {
        self.capacity - self.allocated
    }

    /// The table with the current task replaced by `task`, and the frame
    /// count changed by what `task` holds more or less than the task it
    /// replaces.
    pub open spec fn with_task(self, task: TaskView) -> ManagerView {
        ManagerView {
            tasks: self.tasks.update(self.current, task),
            allocated: self.allocated - self.task().pages() + task.pages(),
            ..self
        }
    }

    /// The table with one more task at its end.
    pub open spec fn with_new(self, task: TaskView) -> ManagerView {
        ManagerView { tasks: self.tasks.push(task), ..self }
    }

    /// The task that is the next to run after the current one: the first
    /// ready task in table order behind it, going round; the current task
    /// itself comes last.
    pub open spec fn next_ready(self) -> Option<int> {
        scan_ready(self.tasks, self.current + 1, self.tasks.len() as int)
    }

    /// The first ready task in table order.
    pub open spec fn first_ready(self) -> Option<int> {
        scan_ready(self.tasks, 0, self.tasks.len() as int)
    }

    /// The task that is running, if one is.
    pub open spec fn running(self) -> Option<int> {
        if self.has_task() && self.task().status == TaskStatus::Running {
            Some(self.current)
        } else {
            None
        }
    }

    /// The table after the task `pick`, if any, was put on the processor.
    pub open spec fn dispatched(self, pick: Option<int>) -> ManagerView {
        match pick {
            Some(i) => ManagerView {
                tasks: self.tasks.update(i, self.tasks[i].with_status(TaskStatus::Running)),
                current: i,
                ..self
            },
            None => self,
        }
    }

    /// The table after task `id` was set up: a task not yet ready becomes
    /// ready; any other task, or a number that names none, changes nothing.
    pub open spec fn readied(self, id: int) -> ManagerView {
        if 0 <= id < self.tasks.len() && self.tasks[id].status == TaskStatus::UnInit {
            ManagerView {
                tasks: self.tasks.update(id, self.tasks[id].with_status(TaskStatus::Ready)),
                ..self
            }
        } else {
            self
        }
    }

    /// The table after the first ready task was put on the processor,
    /// unless a task is running already.
    pub open spec fn started(self) -> ManagerView {
        if self.running().is_some() {
            self
        } else {
            self.dispatched(self.first_ready())
        }
    }

    /// The table after the running task left the processor to wait.
    pub open spec fn suspended(self) -> ManagerView {
        if self.running().is_some() {
            self.with_task(self.task().with_status(TaskStatus::Ready))
        } else {
            self
        }
    }

    /// The table after the running task yielded: it waits, and the next
    /// ready task, which may be the same one, runs.
    pub open spec fn yielded(self) -> ManagerView {
        self.suspended().dispatched(self.suspended().next_ready())
    }

    /// The table after the running task ended with `code`, its frames
    /// back in the pool.
    pub open spec fn ended(self, code: i32) -> ManagerView {
        if self.running().is_some() {
            self.with_task(self.task().exited(code))
        } else {
            self
        }
    }

    /// The table after the running task exited with `code`: it is ended,
    /// and the next ready task, if there is one, runs.
    pub open spec fn exited(self, code: i32) -> ManagerView {
        self.ended(code).dispatched(self.ended(code).next_ready())
    }

    /// The table after one more call of number `id` was counted for the
    /// current task.
    pub open spec fn counted(self, id: int) -> ManagerView {
        if self.has_task() {
            self.with_task(self.task().counted(id))
        } else {
            self
        }
    }

    /// Whether the pages `start..end` can be mapped for the current task:
    /// there is one, the range is not empty and lies in the address space,
    /// none of its pages is mapped, and the pool has a frame for each.
    pub open spec fn can_map(self, start: int, end: int) -> bool {
        &&& self.has_task()
        &&& 0 <= start < end <= spec_page_limit()
        &&& range_free(self.task().space, start, end)
        &&& end - start <= self.available()
    }

    /// The table after the pages `start..end` were mapped for the current
    /// task with the rights `perm`.
    pub open spec fn mapped(self, start: int, end: int, perm: MapPermission) -> ManagerView {
        self.with_task(
            self.task().with_space(
                inserted(self.task().space, AreaView::zeroed(start, end, perm)),
            ),
        )
    }

    /// Whether the pages `start..end` can be unmapped for the current task:
    /// there is one, and every page of the range is mapped.
    pub open spec fn can_unmap(self, start: int, end: int) -> bool {
        &&& self.has_task()
        &&& range_mapped(self.task().space, start, end)
    }

    /// The table after the pages `start..end` were unmapped for the current
    /// task.
    pub open spec fn unmapped(self, start: int, end: int) -> ManagerView {
        self.with_task(self.task().with_space(removed(self.task().space, start, end)))
    }

    /// Whether the end of the current task's heap can be moved by `size`
    /// bytes.
    pub open spec fn can_move_brk(self, size: int) -> bool {
        &&& self.has_task()
        &&& self.task().brk_allowed(size, self.available())
    }

    /// The table after the end of the current task's heap was moved by
    /// `size` bytes.
    pub open spec fn brk_moved(self, size: int) -> ManagerView {
        self.with_task(self.task().brk_moved(size))
    }

    /// Whether user code of the current task may store `len` bytes at
    /// address `addr`.
    pub open spec fn can_write(self, addr: int, len: int) -> bool {
        &&& self.has_task()
        &&& span_allows(self.task().space, addr, len, MapPermission::spec_user_write())
    }

    /// The table after `bytes` were stored at address `addr` in the memory
    /// of the current task.
    pub open spec fn written(self, addr: int, bytes: Seq<u8>) -> ManagerView {
        self.with_task(self.task().with_space(stored(self.task().space, addr, bytes)))
    }
}

/// The frames of two tables put end to end are the sum of theirs.
pub proof fn lemma_sum_pages_concat(left: Seq<TaskView>, right: Seq<TaskView>)
    ensures
        sum_pages(left + right) == sum_pages(left) + sum_pages(right),
    decreases right.len(),
{
    if right.len() == 0 {
        assert(left + right =~= left);
    } else {
        assert((left + right).drop_last() =~= left + right.drop_last());
        lemma_sum_pages_concat(left, right.drop_last());
    }
}

/// A new task adds its frames to the sum.
pub proof fn lemma_sum_pages_push(tasks: Seq<TaskView>, task: TaskView)
    ensures
        sum_pages(tasks.push(task)) == sum_pages(tasks) + task.pages(),
{
    assert(tasks.push(task).drop_last() =~= tasks);
}

/// Replacing a task changes the sum by the difference of the two.
pub proof fn lemma_sum_pages_update(tasks: Seq<TaskView>, k: int, task: TaskView)
    requires
        0 <= k < tasks.len(),
    ensures
        sum_pages(tasks.update(k, task)) == sum_pages(tasks) - tasks[k].pages() + task.pages(),
{
    let low = tasks.take(k);
    let high = tasks.skip(k + 1);
    assert(tasks =~= (low + seq![tasks[k]]) + high);
    assert(tasks.update(k, task) =~= (low + seq![task]) + high);
    lemma_sum_pages_concat(low + seq![tasks[k]], high);
    lemma_sum_pages_concat(low + seq![task], high);
    lemma_sum_pages_push(low, tasks[k]);
    lemma_sum_pages_push(low, task);
    assert(low.push(tasks[k]) =~= low + seq![tasks[k]]);
    assert(low.push(task) =~= low + seq![task]);
}

/// No task holds more frames than all together.
pub proof fn lemma_sum_pages_bounds(tasks: Seq<TaskView>)
    requires
        forall|i: int| 0 <= i < tasks.len() ==> (#[trigger] tasks[i]).pages() >= 0,
    ensures
        sum_pages(tasks) >= 0,
        forall|i: int| 0 <= i < tasks.len() ==> (#[trigger] tasks[i]).pages() <= sum_pages(tasks),
    decreases tasks.len(),
{
    if tasks.len() > 0 {
        let front = tasks.drop_last();
        assert forall|i: int| 0 <= i < front.len() implies (#[trigger] front[i]).pages() >= 0 by {
            assert(tasks[i].pages() >= 0);
        }
        lemma_sum_pages_bounds(front);
        assert(tasks[tasks.len() - 1].pages() >= 0);
        assert forall|i: int| 0 <= i < tasks.len() implies (#[trigger] tasks[i]).pages()
            <= sum_pages(tasks) by {
            if i < front.len() {
                assert(front[i].pages() <= sum_pages(front));
            }
        }
    }
}

/// Going one step on in the round of `n` places.
pub proof fn lemma_mod_step(x: int, n: int)
    requires
        0 <= x,
        0 < n,
    ensures
        ((x + 1) % n == if x % n + 1 == n {
            0
        } else {
            x % n + 1
        }),
{
    lemma_fundamental_div_mod(x, n);
    let q = x / n;
    let r = x % n;
    assert(x == n * q + r);
    if r + 1 == n {
        assert(x + 1 == (q + 1) * n + 0) by (nonlinear_arith)
            requires
                x == n * q + r,
                r + 1 == n,
        ;
        lemma_fundamental_div_mod_converse(x + 1, n, q + 1, 0);
    } else {
        assert(x + 1 == q * n + (r + 1)) by (nonlinear_arith)
            requires
                x == n * q + r,
        ;
        lemma_fundamental_div_mod_converse(x + 1, n, q, r + 1);
    }
}

/// What a scan finds is the first ready task on its way, and it finds
/// none only where none of the tasks on its way is ready.
pub proof fn lemma_scan_ready_first(tasks: Seq<TaskView>, from: int, steps: int)
    requires
        0 <= from,
        0 <= steps,
        tasks.len() > 0,
    ensures
        (match scan_ready(tasks, from, steps) {
            Some(i) => exists|k: int|
                {
                    &&& 0 <= k < steps
                    &&& i == #[trigger] round_index(tasks.len() as int, from, k)
                    &&& 0 <= i < tasks.len()
                    &&& tasks[i].status == TaskStatus::Ready
                    &&& forall|j: int|
                        0 <= j < k ==> tasks[#[trigger] round_index(
                            tasks.len() as int,
                            from,
                            j,
                        )].status != TaskStatus::Ready
                },
            None => forall|j: int|
                0 <= j < steps ==> tasks[#[trigger] round_index(tasks.len() as int, from, j)].status
                    != TaskStatus::Ready,
        }),
    decreases steps,
{
    let n = tasks.len() as int;
    vstd::arithmetic::div_mod::lemma_mod_bound(from, n);
    if steps > 0 {
        if tasks[from % n].status == TaskStatus::Ready {
            assert(round_index(n, from, 0) == from % n);
        } else {
            lemma_scan_ready_first(tasks, from + 1, steps - 1);
            assert(forall|j: int| round_index(n, from + 1, j) == #[trigger] round_index(n, from, j + 1));
            match scan_ready(tasks, from + 1, steps - 1) {
                Some(i) => {
                    let k = choose|k: int|
                        {
                            &&& 0 <= k < steps - 1
                            &&& i == #[trigger] round_index(n, from + 1, k)
                            &&& 0 <= i < tasks.len()
                            &&& tasks[i].status == TaskStatus::Ready
                            &&& forall|j: int|
                                0 <= j < k ==> tasks[#[trigger] round_index(n, from + 1, j)].status
                                    != TaskStatus::Ready
                        };
                    assert(i == round_index(n, from, k + 1));
                    assert forall|j: int| 0 <= j < k + 1 implies tasks[#[trigger] round_index(
                        n,
                        from,
                        j,
                    )].status != TaskStatus::Ready by {
                        if j > 0 {
                            assert(round_index(n, from + 1, j - 1) == round_index(n, from, j));
                        }
                    }
                },
                None => {
                    assert forall|j: int| 0 <= j < steps implies tasks[#[trigger] round_index(
                        n,
                        from,
                        j,
                    )].status != TaskStatus::Ready by {
                        if j > 0 {
                            assert(round_index(n, from + 1, j - 1) == round_index(n, from, j));
                        }
                    }
                },
            }
        }
    }
}

/// A round of the table passes every place: each is reached from any
/// start in fewer steps than the table has places.
pub proof fn lemma_round_reaches(len: int, from: int, place: int)
    requires
        0 <= from,
        0 <= place < len,
    ensures
        exists|k: int| 0 <= k < len && #[trigger] round_index(len, from, k) == place,
{
    let gap = place - from;
    let k = gap % len;
    let turns = gap / len;
    lemma_fundamental_div_mod(gap, len);
    vstd::arithmetic::div_mod::lemma_mod_bound(gap, len);
    assert(from + k == len * (-turns) + place) by (nonlinear_arith)
        requires
            gap == len * turns + k,
            gap == place - from,
    ;
    vstd::arithmetic::div_mod::lemma_mod_multiples_vanish(-turns, place, len);
    vstd::arithmetic::div_mod::lemma_small_mod(place as nat, len as nat);
    assert(round_index(len, from, k) == place);
}

impl ManagerView {
    /// The choice of the next task is fair and misses nobody: it falls on
    /// the first ready task behind the current one in the round, and on
    /// none only where no task is ready.
    pub proof fn lemma_next_ready(self)
        requires
            self.wf(),
            self.has_task(),
        ensures
            (match self.next_ready() {
                Some(i) => exists|k: int|
                    {
                        &&& 0 <= k < self.tasks.len()
                        &&& i == #[trigger] round_index(
                            self.tasks.len() as int,
                            self.current + 1,
                            k,
                        )
                        &&& 0 <= i < self.tasks.len()
                        &&& self.tasks[i].status == TaskStatus::Ready
                        &&& forall|j: int|
                            0 <= j < k ==> self.tasks[#[trigger] round_index(
                                self.tasks.len() as int,
                                self.current + 1,
                                j,
                            )].status != TaskStatus::Ready
                    },
                None => forall|i: int|
                    0 <= i < self.tasks.len() ==> (#[trigger] self.tasks[i]).status
                        != TaskStatus::Ready,
            }),
    {
        let n = self.tasks.len() as int;
        lemma_scan_ready_first(self.tasks, self.current + 1, n);
        if self.next_ready() is None {
            assert forall|i: int| 0 <= i < n implies (#[trigger] self.tasks[i]).status
                != TaskStatus::Ready by {
                lemma_round_reaches(n, self.current + 1, i);
                let k = choose|k: int|
                    0 <= k < n && #[trigger] round_index(n, self.current + 1, k) == i;
                assert(self.tasks[round_index(n, self.current + 1, k)].status != TaskStatus::Ready);
            }
        }
    }
}

impl ManagerView {
    /// In a proper table no task holds fewer than no frames or more than
    /// are handed out.
    pub proof fn lemma_task_pages(self)
        requires
            self.wf(),
        ensures
            forall|i: int|
                0 <= i < self.tasks.len() ==> 0 <= (#[trigger] self.tasks[i]).pages()
                    <= self.allocated,
    {
        assert forall|i: int| 0 <= i < self.tasks.len() implies (#[trigger] self.tasks[i]).pages()
            >= 0 by {
            assert(self.tasks[i].wf());
            lemma_total_pages_bounds(self.tasks[i].space);
        }
        lemma_sum_pages_bounds(self.tasks);
    }

    /// Replacing the current task by a proper one leaves a proper table
    /// proper, where the pool has the frames that the new one holds more.
    pub proof fn lemma_with_task_wf(self, task: TaskView)
        requires
            self.wf(),
            self.has_task(),
            task.wf(),
            self.allocated - self.task().pages() + task.pages() <= self.capacity,
        ensures
            self.with_task(task).wf(),
    {
        let after = self.with_task(task);
        self.lemma_task_pages();
        lemma_total_pages_bounds(task.space);
        lemma_sum_pages_update(self.tasks, self.current, task);
        assert forall|i: int| 0 <= i < after.tasks.len() implies (#[trigger] after.tasks[i]).wf() by {
            if i != self.current {
                assert(self.tasks[i].wf());
            }
        }
        assert forall|i: int|
            0 <= i < after.tasks.len() && (#[trigger] after.tasks[i]).status
                == TaskStatus::Running implies i == after.current by {
            if i != self.current {
                assert(self.tasks[i].status == TaskStatus::Running);
            }
        }
    }

    /// Putting a ready task on the processor while none runs leaves a
    /// proper table proper.
    pub proof fn lemma_dispatched_wf(self, pick: Option<int>)
        requires
            self.wf(),
            self.running() is None,
            pick matches Some(i) ==> 0 <= i < self.tasks.len(),
        ensures
            self.dispatched(pick).wf(),
    {
        if let Some(i) = pick {
            let after = self.dispatched(pick);
            let task = self.tasks[i].with_status(TaskStatus::Running);
            lemma_sum_pages_update(self.tasks, i, task);
            assert forall|j: int| 0 <= j < after.tasks.len() implies (
            #[trigger] after.tasks[j]).wf() by {
                assert(self.tasks[j].wf());
            }
            assert forall|j: int|
                0 <= j < after.tasks.len() && (#[trigger] after.tasks[j]).status
                    == TaskStatus::Running implies j == after.current by {
                if j != i {
                    assert(self.tasks[j].status == TaskStatus::Running);
                }
            }
        }
    }

    /// Every call leaves a proper table proper: setting a task up, starting
    /// the first task, a yield, an exit, and counting a call.
    pub proof fn lemma_scheduling_wf(self, id: int, code: i32)
        requires
            self.wf(),
        ensures
            self.readied(id).wf(),
            self.started().wf(),
            self.yielded().wf(),
            self.exited(code).wf(),
            self.counted(id).wf(),
    {
        self.lemma_task_pages();
        if 0 <= id < self.tasks.len() && self.tasks[id].status == TaskStatus::UnInit {
            let after = self.readied(id);
            let task = self.tasks[id].with_status(TaskStatus::Ready);
            lemma_sum_pages_update(self.tasks, id, task);
            assert forall|j: int| 0 <= j < after.tasks.len() implies (
            #[trigger] after.tasks[j]).wf() by {
                assert(self.tasks[j].wf());
            }
            assert forall|j: int|
                0 <= j < after.tasks.len() && (#[trigger] after.tasks[j]).status
                    == TaskStatus::Running implies j == after.current by {
                assert(self.tasks[j].status == TaskStatus::Running);
            }
        }
        if self.running() is None {
            if self.has_task() {
                lemma_scan_ready_first(self.tasks, 0, self.tasks.len() as int);
            }
            self.lemma_dispatched_wf(self.first_ready());
        }
        if self.has_task() {
            assert(self.task().wf());
            self.lemma_with_task_wf(self.task().counted(id));
            let waiting = self.suspended();
            let done = self.ended(code);
            if self.running() is Some {
                self.lemma_with_task_wf(self.task().with_status(TaskStatus::Ready));
                assert(total_pages(Seq::<AreaView>::empty()) == 0);
                self.lemma_with_task_wf(self.task().exited(code));
            }
            lemma_scan_ready_first(waiting.tasks, waiting.current + 1, waiting.tasks.len() as int);
            lemma_scan_ready_first(done.tasks, done.current + 1, done.tasks.len() as int);
            assert(waiting.running() is None);
            assert(done.running() is None);
            waiting.lemma_dispatched_wf(waiting.next_ready());
            done.lemma_dispatched_wf(done.next_ready());
        }
    }

    /// Every memory call that succeeds leaves a proper table proper:
    /// mapping, unmapping, moving the end of the heap, and writing.
    pub proof fn lemma_memory_wf(
        self,
        start: int,
        end: int,
        perm: MapPermission,
        size: int,
        addr: int,
        bytes: Seq<u8>,
    )
        requires
            self.wf(),
            self.has_task(),
        ensures
            self.can_map(start, end) ==> self.mapped(start, end, perm).wf(),
            self.unmapped(start, end).wf(),
            self.can_move_brk(size) ==> self.brk_moved(size).wf(),
            self.written(addr, bytes).wf(),
    {
        let task = self.task();
        self.lemma_task_pages();
        assert(task.wf());
        if self.can_map(start, end) {
            let area = AreaView::zeroed(start, end, perm);
            lemma_inserted_ordered(task.space, area);
            self.lemma_with_task_wf(task.with_space(inserted(task.space, area)));
        }
        lemma_removed_ordered(task.space, start, end, spec_page_limit());
        lemma_removed_pages(task.space, start, end);
        self.lemma_with_task_wf(task.with_space(removed(task.space, start, end)));
        if self.can_move_brk(size) {
            task.lemma_brk_moved_wf(size, self.available());
            self.lemma_with_task_wf(task.brk_moved(size));
        }
        lemma_stored_ordered(task.space, addr, bytes);
        lemma_total_pages_by_range(task.space, stored(task.space, addr, bytes));
        self.lemma_with_task_wf(task.with_space(stored(task.space, addr, bytes)));
    }
}

} // verus!
