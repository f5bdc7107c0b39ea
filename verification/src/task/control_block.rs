//! The control block of one task: its state, its statistics, its address
//! space and its heap.
use crate::config::MAX_SYSCALL_NUM;
use crate::mm::address::{
    is_aligned, page_ceil, page_floor, spec_is_aligned, spec_page_ceil, spec_page_floor,
    spec_page_limit,
};
use crate::mm::area::AreaView;
use crate::mm::layout::{
    appended, area_at, can_append, can_shrink, inserted, ordered, range_free, removed, shrunk,
    span_allows, stored, total_pages,
};
use crate::mm::lemmas::{
    lemma_appended_ordered, lemma_inserted_ordered, lemma_shrunk_ordered, lemma_total_pages_bounds,
};
use crate::mm::memory_set::MemorySet;
use crate::mm::permission::MapPermission;
use crate::task::status::TaskStatus;
use vstd::prelude::*;

verus! {

/// What a task is, mathematically.
pub struct TaskView {
    /// Where the task stands in its life cycle.
    pub status: TaskStatus,
    /// How often the task has made each system call, by call number.
    pub syscall_times: Seq<u32>,
    /// When the task was created, in milliseconds.
    pub created_ms: int,
    /// The code the task exited with, once it has.
    pub exit_code: Option<i32>,
    /// The areas of its address space, in address order.
    pub space: Seq<AreaView>,
    /// Address below which the heap never shrinks.
    pub heap_bottom: int,
    /// Address at which the heap ends.
    pub program_brk: int,
}

impl TaskView {
    /// A proper task: one counter for each call number, an ordered address
    /// space, and a heap that starts on a page boundary and ends at or
    /// above its start.
    pub open spec fn wf(self) -> bool {
        &&& self.syscall_times.len() == MAX_SYSCALL_NUM
        &&& 0 <= self.created_ms <= usize::MAX
        &&& ordered(self.space)
        &&& total_pages(self.space) <= usize::MAX
        &&& spec_is_aligned(self.heap_bottom)
        &&& 0 <= self.heap_bottom <= self.program_brk <= isize::MAX
    }

    /// The task with its state changed to `status`.
    pub open spec fn with_status(self, status: TaskStatus) -> TaskView {
        TaskView { status, ..self }
    }

    /// The task with its address space changed to `space`.
    pub open spec fn with_space(self, space: Seq<AreaView>) -> TaskView {
        TaskView { space, ..self }
    }

    /// The task after one more call of number `id`: the counter of `id`
    /// goes up by one, but not past the largest count; a number that has no
    /// counter changes nothing.
    pub open spec fn counted(self, id: int) -> TaskView {
        if 0 <= id < self.syscall_times.len() && self.syscall_times[id] < u32::MAX {
            TaskView {
                syscall_times: self.syscall_times.update(id, (self.syscall_times[id] + 1) as u32),
                ..self
            }
        } else {
            self
        }
    }

    /// The task after it exited with `code`: it is marked, and all its
    /// memory is given up.
    pub open spec fn exited(self, code: i32) -> TaskView {
        TaskView {
            status: TaskStatus::Exited,
            exit_code: Some(code),
            space: Seq::<AreaView>::empty(),
            ..self
        }
    }

    /// Number of frames the task holds.
    pub open spec fn pages(self) -> int {
        total_pages(self.space)
    }

    /// First page of the heap.
    pub open spec fn heap_start(self) -> int {
        spec_page_floor(self.heap_bottom)
    }

    /// Page just past the heap.
    pub open spec fn heap_end(self) -> int {
        spec_page_ceil(self.program_brk)
    }

    /// Whether the heap is in one piece: it has no page, or one area holds
    /// exactly its pages.  A heap that only ever grew and shrank is; one
    /// that had pages unmapped from it may not be.
    pub open spec fn heap_whole(self) -> bool {
        ||| self.heap_end() == self.heap_start()
        ||| area_at(self.space, self.heap_start()) matches Some(k) && self.space[k].end
            == self.heap_end()
    }

    /// Whether the end of the heap can be moved by `size` bytes with at
    /// most `budget` new frames.  The new end must not lie below the start
    /// of the heap, nor above the largest address that a signed machine
    /// word holds.  Where the heap then needs more pages, they must be
    /// free and within the budget, and the heap's area, if the heap has
    /// pages already, must still start where the heap starts.  Where it
    /// needs fewer, the heap's area must reach at least to the new end.
    pub open spec fn brk_allowed(self, size: int, budget: int) -> bool {
        let new_brk = self.program_brk + size;
        let new_end = spec_page_ceil(new_brk);
        &&& self.heap_bottom <= new_brk <= isize::MAX
        &&& if new_end > self.heap_end() {
            if self.heap_end() == self.heap_start() {
                &&& range_free(self.space, self.heap_start(), new_end)
                &&& new_end - self.heap_start() <= budget
            } else {
                can_append(self.space, self.heap_start(), new_end, budget)
            }
        } else if new_end < self.heap_end() {
            can_shrink(self.space, self.heap_start(), new_end)
        } else {
            true
        }
    }

    /// The task after the end of its heap was moved by `size` bytes.
    pub open spec fn brk_moved(self, size: int) -> TaskView {
        let new_brk = self.program_brk + size;
        let new_end = spec_page_ceil(new_brk);
        let space = if new_end > self.heap_end() {
            if self.heap_end() == self.heap_start() {
                inserted(
                    self.space,
                    AreaView::zeroed(self.heap_start(), new_end, MapPermission::spec_user_data()),
                )
            } else {
                appended(self.space, self.heap_start(), new_end)
            }
        } else if new_end < self.heap_end() {
            shrunk(self.space, self.heap_start(), new_end)
        } else {
            self.space
        };
        TaskView { space, program_brk: new_brk, ..self }
    }
}

impl TaskView {
    /// Moving the end of the heap leaves a proper task proper, and takes no
    /// more frames than the budget.
    pub proof fn lemma_brk_moved_wf(self, size: int, budget: int)
        requires
            self.wf(),
            self.brk_allowed(size, budget),
            0 <= budget,
            self.pages() + budget <= usize::MAX,
        ensures
            self.brk_moved(size).wf(),
            0 <= self.brk_moved(size).pages() <= self.pages() + budget,
    {
        let new_end = spec_page_ceil(self.program_brk + size);
        let moved = self.brk_moved(size);
        lemma_total_pages_bounds(self.space);
        if new_end > self.heap_end() {
            if self.heap_end() == self.heap_start() {
                let area = AreaView::zeroed(
                    self.heap_start(),
                    new_end,
                    MapPermission::spec_user_data(),
                );
                lemma_inserted_ordered(self.space, area);
            } else {
                lemma_appended_ordered(self.space, self.heap_start(), new_end, budget);
            }
        } else if new_end < self.heap_end() {
            lemma_shrunk_ordered(self.space, self.heap_start(), new_end);
        }
        lemma_total_pages_bounds(moved.space);
    }
}

/// The kernel's record of one task.
pub struct TaskControlBlock {
    status: TaskStatus,
    syscall_times: [u32; MAX_SYSCALL_NUM],
    created_ms: usize,
    exit_code: Option<i32>,
    memory_set: MemorySet,
    heap_bottom: usize,
    program_brk: usize,
}

impl View for TaskControlBlock {
    type V = TaskView;

    closed spec fn view(&self) -> TaskView {
        TaskView {
            status: self.status,
            syscall_times: self.syscall_times@,
            created_ms: self.created_ms as int,
            exit_code: self.exit_code,
            space: self.memory_set@,
            heap_bottom: self.heap_bottom as int,
            program_brk: self.program_brk as int,
        }
    }
}

impl TaskControlBlock {
    /// The invariant of every control block that the library hands out.
    pub closed spec fn wf(&self) -> bool {
        &&& self@.wf()
        &&& self.memory_set.wf()
    }

    /// A control block that the library hands out has a proper view.
    pub proof fn lemma_wf(&self)
        requires
            self.wf(),
        ensures
            self@.wf(),
    {
    }

    /// A task with nothing mapped and an empty heap at `heap_bottom`,
    /// created at time `created_ms`.  There is none where `heap_bottom` is
    /// not on a page boundary or lies above the largest address a break
    /// can have.
    pub fn new(heap_bottom: usize, created_ms: usize) -> (task: Option<TaskControlBlock>)
        ensures
            task.is_some() == (spec_is_aligned(heap_bottom as int) && heap_bottom <= isize::MAX),
            (task matches Some(t) ==> {
                &&& t.wf()
                &&& t@ == (TaskView {
                    status: TaskStatus::UnInit,
                    syscall_times: Seq::new(MAX_SYSCALL_NUM as nat, |i: int| 0u32),
                    created_ms: created_ms as int,
                    exit_code: None,
                    space: Seq::<AreaView>::empty(),
                    heap_bottom: heap_bottom as int,
                    program_brk: heap_bottom as int,
                })
            }),
    {
        if !is_aligned(heap_bottom) || heap_bottom > isize::MAX as usize {
            return None;
        }
        let task = TaskControlBlock {
            status: TaskStatus::UnInit,
            syscall_times: [0u32; MAX_SYSCALL_NUM],
            created_ms,
            exit_code: None,
            memory_set: MemorySet::new(),
            heap_bottom,
            program_brk: heap_bottom,
        };
        assert(task@.syscall_times =~= Seq::new(MAX_SYSCALL_NUM as nat, |i: int| 0u32));
        Some(task)
    }

    /// Where the task stands in its life cycle.
    pub fn status(&self) -> (status: TaskStatus)
        ensures
            status == self@.status,
    {
        self.status
    }

    /// How often the task has made each system call, by call number.
    pub fn syscall_times(&self) -> (times: [u32; MAX_SYSCALL_NUM])
        ensures
            times@ == self@.syscall_times,
    {
        self.syscall_times
    }

    /// When the task was created, in milliseconds.
    pub fn created_ms(&self) -> (ms: usize)
        ensures
            ms == self@.created_ms,
    {
        self.created_ms
    }

    /// The code the task exited with, once it has.
    pub fn exit_code(&self) -> (code: Option<i32>)
        ensures
            code == self@.exit_code,
    {
        self.exit_code
    }

    /// Address below which the heap never shrinks.
    pub fn heap_bottom(&self) -> (addr: usize)
        ensures
            addr == self@.heap_bottom,
    {
        self.heap_bottom
    }

    /// Address at which the heap ends.
    pub fn program_brk(&self) -> (addr: usize)
        ensures
            addr == self@.program_brk,
    {
        self.program_brk
    }

    /// The address space of the task.
    pub fn memory_set(&self) -> (set: &MemorySet)
        requires
            self.wf(),
        ensures
            set.wf(),
            set@ == self@.space,
    {
        &self.memory_set
    }

    /// Changes the state of the task to `status`.
    pub(crate) fn set_status(&mut self, status: TaskStatus)
        requires
            old(self).wf(),
        ensures
            final(self).wf(),
            final(self)@ == old(self)@.with_status(status),
    {
        self.status = status;
    }

    /// Counts one more call of number `id`.
    pub fn record_syscall(&mut self, id: usize)
        requires
            old(self).wf(),
        ensures
            final(self).wf(),
            final(self)@ == old(self)@.counted(id as int),
    {
        if id < MAX_SYSCALL_NUM {
            let count: u32 = self.syscall_times[id];
            if count < u32::MAX {
                self.syscall_times[id] = count + 1;
            }
        }
    }

    /// Marks the task as exited with `code` and gives up all its memory.
    /// Returns the number of frames given up.
    pub(crate) fn exit(&mut self, code: i32) -> (freed: usize)
        requires
            old(self).wf(),
        ensures
            final(self).wf(),
            final(self)@ == old(self)@.exited(code),
            freed == old(self)@.pages(),
    {
        self.status = TaskStatus::Exited;
        self.exit_code = Some(code);
        self.memory_set.clear()
    }

    /// Maps the pages `start..end` afresh with the rights `perm`.
    pub fn map(&mut self, start: usize, end: usize, perm: MapPermission)
        requires
            old(self).wf(),
            start < end <= spec_page_limit(),
            range_free(old(self)@.space, start as int, end as int),
            old(self)@.pages() + (end - start) <= usize::MAX,
        ensures
            final(self).wf(),
            final(self)@ == old(self)@.with_space(
                inserted(old(self)@.space, AreaView::zeroed(start as int, end as int, perm)),
            ),
            final(self)@.pages() == old(self)@.pages() + (end - start),
    {
        self.memory_set.insert_framed_area(start, end, perm);
    }

    /// Unmaps whatever is mapped of the pages `start..end`.  Returns the
    /// number of frames given up.
    pub fn unmap(&mut self, start: usize, end: usize) -> (freed: usize)
        requires
            old(self).wf(),
        ensures
            final(self).wf(),
            final(self)@ == old(self)@.with_space(
                removed(old(self)@.space, start as int, end as int),
            ),
            freed == old(self)@.pages() - final(self)@.pages(),
    {
        self.memory_set.remove_range(start, end)
    }

    /// Copies `bytes` into the task's memory at address `addr`, if every
    /// page touched is writable by user code; else nothing is written.
    pub fn write_bytes(&mut self, addr: usize, bytes: &[u8]) -> (done: bool)
        requires
            old(self).wf(),
        ensures
            final(self).wf(),
            done == span_allows(
                old(self)@.space,
                addr as int,
                bytes@.len() as int,
                MapPermission::spec_user_write(),
            ),
            done ==> final(self)@ == old(self)@.with_space(
                stored(old(self)@.space, addr as int, bytes@),
            ),
            !done ==> final(self)@ == old(self)@,
            final(self)@.pages() == old(self)@.pages(),
    {
        self.memory_set.write_bytes(addr, bytes)
    }

    /// Moves the end of the heap by `size` bytes, mapping or unmapping
    /// pages as needed and taking at most `budget` new frames.  Returns the
    /// end of the heap as it was, or `None`, with nothing changed, where
    /// the move is not allowed.
    pub fn change_program_brk(&mut self, size: i32, budget: usize) -> (old_brk: Option<usize>)
        requires
            old(self).wf(),
            old(self)@.pages() + budget <= usize::MAX,
        ensures
            final(self).wf(),
            old_brk.is_some() == old(self)@.brk_allowed(size as int, budget as int),
            (old_brk matches Some(brk) ==> {
                &&& brk == old(self)@.program_brk
                &&& final(self)@ == old(self)@.brk_moved(size as int)
            }),
            old_brk is None ==> final(self)@ == old(self)@,
            final(self)@.pages() <= old(self)@.pages() + budget,
    {
        let old_brk = self.program_brk;
        let new_brk: usize = if size >= 0 {
            let more = size as usize;
            if more > isize::MAX as usize - old_brk {
                return None;
            }
            old_brk + more
        } else {
            let less = (-(size as i64)) as usize;
            if less > old_brk - self.heap_bottom {
                return None;
            }
            old_brk - less
        };
        let bottom = page_floor(self.heap_bottom);
        let old_end = page_ceil(old_brk);
        let new_end = page_ceil(new_brk);
        if new_end > old_end {
            if old_end == bottom {
                if new_end - bottom > budget || !self.memory_set.is_free(bottom, new_end) {
                    return None;
                }
                self.memory_set.insert_framed_area(bottom, new_end, MapPermission::user_data());
            } else {
                if self.memory_set.append_to(bottom, new_end, budget).is_none() {
                    return None;
                }
            }
        } else if new_end < old_end {
            if self.memory_set.shrink_to(bottom, new_end).is_none() {
                return None;
            }
        }
        self.program_brk = new_brk;
        Some(old_brk)
    }
}

} // verus!
