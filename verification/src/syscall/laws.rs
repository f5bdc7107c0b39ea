//! What holds of system calls made one after another.
use crate::config::{CLOCK_FREQ, MICRO_PER_SEC, PAGE_SIZE};
use crate::mm::address::{spec_page_ceil, spec_page_floor};
use crate::mm::area::AreaView;
use crate::mm::layout::{area_at, inserted, loaded, page_allows, page_mapped, rank, stored};
use crate::mm::lemmas::{
    lemma_insert_then_remove, lemma_inserted_found, lemma_inserted_free, lemma_rank_bounds,
    lemma_rank_by_start, lemma_store_then_load_all, lemma_total_pages_insert,
    lemma_total_pages_remove, lemma_total_pages_update,
};
use crate::mm::permission::MapPermission;
use crate::syscall::process::{mmap_allowed, munmap_allowed, port_permission, span_valid, TimeVal};
use crate::task::status::TaskStatus;
use crate::task::table::{ManagerView, scan_ready};
use crate::timer::{lemma_time_monotonic, spec_time_us};
use vstd::arithmetic::div_mod::{
    lemma_div_is_ordered, lemma_div_multiples_vanish, lemma_fundamental_div_mod,
};
use vstd::prelude::*;

verus! {

/// A range of memory that a mapping call takes has at least one page.
pub proof fn lemma_span_pages(start: int, len: int)
    requires
        0 <= start,
        span_valid(start, len),
    ensures
        0 <= spec_page_floor(start) < spec_page_ceil(start + len),
        spec_page_floor(start) * PAGE_SIZE == start,
{
    lemma_fundamental_div_mod(start, PAGE_SIZE as int);
    lemma_fundamental_div_mod(start + len + PAGE_SIZE - 1, PAGE_SIZE as int);
}

/// Mapping a range and unmapping it at once leaves everything as it was:
/// the areas of the task, their bytes, and the frame pool.  The second call
/// cannot fail.
pub proof fn lemma_mmap_then_munmap(manager: ManagerView, start: usize, len: usize, port: usize)
    requires
        manager.wf(),
        mmap_allowed(manager, start, len, port),
    ensures
        ({
            let first = spec_page_floor(start as int);
            let last = spec_page_ceil(start + len);
            let after = manager.mapped(first, last, port_permission(port));
            &&& munmap_allowed(after, start, len)
            &&& after.unmapped(first, last) == manager
        }),
{
    let first = spec_page_floor(start as int);
    let last = spec_page_ceil(start + len);
    let perm = port_permission(port);
    let area = AreaView::zeroed(first, last, perm);
    let task = manager.task();
    let after = manager.mapped(first, last, perm);
    lemma_insert_then_remove(task.space, area);
    let back = after.unmapped(first, last);
    assert(after.task() == task.with_space(inserted(task.space, area)));
    assert(back.tasks =~= manager.tasks);
}

/// Two ranges that share no page can be mapped one after the other: where
/// each could be mapped by itself and the pool has frames for both, the
/// second call succeeds after the first.
pub proof fn lemma_mmap_apart(
    manager: ManagerView,
    start: usize,
    len: usize,
    port: usize,
    other_start: usize,
    other_len: usize,
    other_port: usize,
)
    requires
        manager.wf(),
        mmap_allowed(manager, start, len, port),
        mmap_allowed(manager, other_start, other_len, other_port),
        spec_page_ceil(start + len) <= spec_page_floor(other_start as int) || spec_page_ceil(
            other_start + other_len,
        ) <= spec_page_floor(start as int),
        (spec_page_ceil(start + len) - spec_page_floor(start as int)) + (spec_page_ceil(
            other_start + other_len,
        ) - spec_page_floor(other_start as int)) <= manager.available(),
    ensures
        mmap_allowed(
            manager.mapped(
                spec_page_floor(start as int),
                spec_page_ceil(start + len),
                port_permission(port),
            ),
            other_start,
            other_len,
            other_port,
        ),
{
    let first = spec_page_floor(start as int);
    let last = spec_page_ceil(start + len);
    let area = AreaView::zeroed(first, last, port_permission(port));
    let task = manager.task();
    lemma_rank_bounds(task.space, first);
    lemma_total_pages_insert(task.space, rank(task.space, first), area);
    lemma_inserted_free(
        task.space,
        area,
        spec_page_floor(other_start as int),
        spec_page_ceil(other_start + other_len),
    );
}

/// A range that shares a page with one just mapped cannot be mapped: the
/// call fails, whatever rights it asks for.
pub proof fn lemma_mmap_overlap(
    manager: ManagerView,
    start: usize,
    len: usize,
    port: usize,
    other_start: usize,
    other_len: usize,
    other_port: usize,
)
    requires
        manager.wf(),
        mmap_allowed(manager, start, len, port),
        spec_page_floor(other_start as int) < spec_page_ceil(start + len),
        spec_page_floor(start as int) < spec_page_ceil(other_start + other_len),
    ensures
        !mmap_allowed(
            manager.mapped(
                spec_page_floor(start as int),
                spec_page_ceil(start + len),
                port_permission(port),
            ),
            other_start,
            other_len,
            other_port,
        ),
{
    let first = spec_page_floor(start as int);
    let last = spec_page_ceil(start + len);
    let area = AreaView::zeroed(first, last, port_permission(port));
    let task = manager.task();
    if span_valid(other_start as int, other_len as int) {
        lemma_span_pages(other_start as int, other_len as int);
        lemma_inserted_free(
            task.space,
            area,
            spec_page_floor(other_start as int),
            spec_page_ceil(other_start + other_len),
        );
    }
}

/// Moving the end of the heap by nothing succeeds and changes nothing.
pub proof fn lemma_sbrk_zero(manager: ManagerView)
    requires
        manager.wf(),
        manager.has_task(),
    ensures
        manager.can_move_brk(0),
        manager.brk_moved(0) == manager,
{
    let task = manager.task();
    assert(task.wf());
    assert(task.brk_moved(0) == task);
    assert(manager.brk_moved(0).tasks =~= manager.tasks);
}

/// Moving the end of the heap by `size` bytes and then back: between the
/// two calls the end lies `size` bytes from where it was, and after them
/// it is where it was.  After a move up the move back cannot fail.
pub proof fn lemma_sbrk_there_and_back(manager: ManagerView, size: i32)
    requires
        manager.wf(),
        size > i32::MIN,
        manager.can_move_brk(size as int),
        size < 0 ==> manager.brk_moved(size as int).can_move_brk(-size),
    ensures
        ({
            let between = manager.brk_moved(size as int);
            &&& between.task().program_brk == manager.task().program_brk + size
            &&& between.can_move_brk(-size)
            &&& between.brk_moved(-size).task().program_brk == manager.task().program_brk
        }),
{
    let task = manager.task();
    let between = manager.brk_moved(size as int);
    let moved = task.brk_moved(size as int);
    assert(task.wf());
    assert(between.task() == moved);
    if size >= 0 {
        let bottom = task.heap_start();
        let old_end = task.heap_end();
        let new_end = spec_page_ceil(task.program_brk + size);
        lemma_div_is_ordered(
            task.program_brk + PAGE_SIZE - 1,
            task.program_brk + size + PAGE_SIZE - 1,
            PAGE_SIZE as int,
        );
        lemma_div_is_ordered(
            task.heap_bottom,
            task.program_brk + PAGE_SIZE - 1,
            PAGE_SIZE as int,
        );
        assert(bottom <= old_end <= new_end);
        assert(moved.heap_end() == new_end);
        assert(spec_page_ceil(moved.program_brk - size) == old_end);
        if new_end > old_end {
            if old_end == bottom {
                let area = AreaView::zeroed(bottom, new_end, MapPermission::spec_user_data());
                lemma_inserted_found(task.space, area);
                lemma_rank_bounds(task.space, bottom);
            } else {
                let k = area_at(task.space, bottom).unwrap();
                lemma_rank_by_start(task.space, moved.space, bottom);
            }
        }
    }
}

/// Moving the end of a heap that is in one piece leaves it in one piece.
pub proof fn lemma_sbrk_keeps_heap_whole(manager: ManagerView, size: i32)
    requires
        manager.wf(),
        manager.can_move_brk(size as int),
        manager.task().heap_whole(),
    ensures
        manager.brk_moved(size as int).task().heap_whole(),
{
    let task = manager.task();
    let moved = task.brk_moved(size as int);
    assert(task.wf());
    assert(manager.brk_moved(size as int).task() == moved);
    let bottom = task.heap_start();
    let old_end = task.heap_end();
    let new_end = spec_page_ceil(task.program_brk + size);
    assert(moved.heap_end() == new_end);
    if new_end > old_end {
        if old_end == bottom {
            let area = AreaView::zeroed(bottom, new_end, MapPermission::spec_user_data());
            lemma_inserted_found(task.space, area);
            lemma_rank_bounds(task.space, bottom);
        } else {
            lemma_rank_by_start(task.space, moved.space, bottom);
        }
    } else if new_end < old_end {
        if new_end != bottom {
            lemma_rank_by_start(task.space, moved.space, bottom);
        }
    }
}

/// A heap in one piece that was moved down can be moved up again by as
/// much: the pages it gave up are free, and so are their frames.
pub proof fn lemma_sbrk_down_then_up(manager: ManagerView, size: i32)
    requires
        manager.wf(),
        i32::MIN < size < 0,
        manager.can_move_brk(size as int),
        manager.task().heap_whole(),
    ensures
        manager.brk_moved(size as int).can_move_brk(-size),
{
    let task = manager.task();
    let between = manager.brk_moved(size as int);
    let moved = task.brk_moved(size as int);
    assert(task.wf());
    assert(between.task() == moved);
    let bottom = task.heap_start();
    let old_end = task.heap_end();
    let new_end = spec_page_ceil(task.program_brk + size);
    lemma_div_is_ordered(
        task.program_brk + size + PAGE_SIZE - 1,
        task.program_brk + PAGE_SIZE - 1,
        PAGE_SIZE as int,
    );
    lemma_div_is_ordered(
        task.heap_bottom,
        task.program_brk + size + PAGE_SIZE - 1,
        PAGE_SIZE as int,
    );
    assert(bottom <= new_end <= old_end);
    assert(moved.heap_end() == new_end);
    assert(spec_page_ceil(moved.program_brk - size) == old_end);
    if new_end < old_end {
        let k = area_at(task.space, bottom).unwrap();
        let area = task.space[k];
        assert(area.wf());
        assert(area.end == old_end);
        if new_end == bottom {
            let rest = task.space.remove(k);
            lemma_total_pages_remove(task.space, k);
            assert forall|j: int| 0 <= j < rest.len() implies (#[trigger] rest[j]).misses(
                bottom,
                old_end,
            ) by {
                if j < k {
                    assert(task.space[j].end <= task.space[k].start);
                } else {
                    assert(task.space[k].end <= task.space[j + 1].start);
                }
            }
        } else {
            let cut = task.space.update(k, area.below(new_end));
            lemma_total_pages_update(task.space, k, area.below(new_end));
            lemma_rank_by_start(task.space, cut, bottom);
            assert forall|j: int| 0 <= j < cut.len() implies (#[trigger] cut[j]).misses(
                new_end,
                old_end,
            ) by {
                if j < k {
                    assert(task.space[j].end <= task.space[k].start);
                } else if j > k {
                    assert(task.space[k].end <= task.space[j].start);
                }
            }
        }
    }
}

/// What a call wrote into the memory of the current task is what the task
/// then reads there: the bytes that `sys_get_time` and `sys_task_info`
/// hand over arrive whole, also where they lie across pages or areas.
pub proof fn lemma_written_then_read(manager: ManagerView, addr: usize, bytes: Seq<u8>)
    requires
        manager.wf(),
        manager.can_write(addr as int, bytes.len() as int),
    ensures
        loaded(manager.written(addr as int, bytes).task().space, addr as int, bytes.len() as int)
            == bytes,
{
    let space = manager.task().space;
    let after = manager.written(addr as int, bytes).task().space;
    assert(after == stored(space, addr as int, bytes));
    assert(manager.task().wf());
    if bytes.len() == 0 {
        assert(loaded(after, addr as int, 0) =~= bytes);
    } else {
        let first = spec_page_floor(addr as int);
        let last = spec_page_ceil(addr + bytes.len());
        assert forall|vpn: int| first <= vpn < last implies page_mapped(space, vpn) by {
            assert(page_allows(space, vpn, MapPermission::spec_user_write()));
        }
        lemma_store_then_load_all(space, addr as int, bytes);
    }
}

/// A time in microseconds is at most the count of ticks it was made from.
pub proof fn lemma_time_us_bounds(ticks: int)
    requires
        0 <= ticks,
    ensures
        0 <= spec_time_us(ticks) <= ticks,
{
    assert(0 <= ticks * (MICRO_PER_SEC as int) <= ticks * (CLOCK_FREQ as int)) by (nonlinear_arith)
        requires
            0 <= ticks,
            MICRO_PER_SEC == 1_000_000,
            CLOCK_FREQ == 12_500_000,
    ;
    lemma_div_is_ordered(0, ticks * (MICRO_PER_SEC as int), CLOCK_FREQ as int);
    lemma_div_is_ordered(
        ticks * (MICRO_PER_SEC as int),
        ticks * (CLOCK_FREQ as int),
        CLOCK_FREQ as int,
    );
    lemma_div_multiples_vanish(ticks, CLOCK_FREQ as int);
    assert(ticks * (CLOCK_FREQ as int) == (CLOCK_FREQ as int) * ticks) by (nonlinear_arith);
}

/// The time that `sys_get_time` reports never runs backwards: of two
/// readings of the counter the later gives no earlier time, and the
/// microseconds it reports are those of a second that has begun.
pub proof fn lemma_time_val_monotonic(earlier: usize, later: usize)
    requires
        earlier <= later,
    ensures
        TimeVal::spec_from_us(spec_time_us(earlier as int)).spec_le(
            TimeVal::spec_from_us(spec_time_us(later as int)),
        ),
        TimeVal::spec_from_us(spec_time_us(later as int)).usec < MICRO_PER_SEC,
{
    let a = spec_time_us(earlier as int);
    let b = spec_time_us(later as int);
    lemma_time_monotonic(earlier as int, later as int);
    lemma_time_us_bounds(earlier as int);
    lemma_time_us_bounds(later as int);
    lemma_fundamental_div_mod(a, MICRO_PER_SEC as int);
    lemma_fundamental_div_mod(b, MICRO_PER_SEC as int);
    lemma_div_is_ordered(a, b, MICRO_PER_SEC as int);
    lemma_div_is_ordered(0, a, MICRO_PER_SEC as int);
    lemma_div_is_ordered(a, usize::MAX as int, MICRO_PER_SEC as int);
    lemma_div_is_ordered(b, usize::MAX as int, MICRO_PER_SEC as int);
}

/// What a scan finds is a task of the table, and it is ready.
pub proof fn lemma_scan_ready_found(manager: ManagerView, from: int, steps: int)
    requires
        0 <= from,
    ensures
        scan_ready(manager.tasks, from, steps) matches Some(i) ==> 0 <= i < manager.tasks.len()
            && manager.tasks[i].status == TaskStatus::Ready,
    decreases steps,
{
    if steps > 0 && manager.tasks.len() > 0 {
        lemma_fundamental_div_mod(from, manager.tasks.len() as int);
        vstd::arithmetic::div_mod::lemma_mod_bound(from, manager.tasks.len() as int);
        lemma_scan_ready_found(manager, from + 1, steps - 1);
    }
}

/// A yield moves every task along its life cycle or leaves it: the task
/// that ran waits or runs again, a ready task may come to run, and no other
/// task changes state.  Nothing else about any task changes.
pub proof fn lemma_yield_lifecycle(manager: ManagerView)
    requires
        manager.wf(),
    ensures
        manager.yielded().tasks.len() == manager.tasks.len(),
        (forall|i: int|
            0 <= i < manager.tasks.len() ==> {
                &&& (#[trigger] manager.tasks[i]).status.may_become(manager.yielded().tasks[i].status)
                &&& manager.yielded().tasks[i] == manager.tasks[i].with_status(
                    manager.yielded().tasks[i].status,
                )
            }),
        manager.yielded().allocated == manager.allocated,
{
    let waiting = manager.suspended();
    lemma_scan_ready_found(waiting, waiting.current + 1, waiting.tasks.len() as int);
}

/// An exit moves every task along its life cycle or leaves it: the task
/// that ran is ended for good, a ready task may come to run, and no other
/// task changes state.  A task that has exited stays so.
pub proof fn lemma_exit_lifecycle(manager: ManagerView, code: i32)
    requires
        manager.wf(),
    ensures
        manager.exited(code).tasks.len() == manager.tasks.len(),
        forall|i: int|
            0 <= i < manager.tasks.len() ==> (#[trigger] manager.tasks[i]).status.may_become(
                manager.exited(code).tasks[i].status,
            ),
        forall|i: int|
            0 <= i < manager.tasks.len() && (#[trigger] manager.tasks[i]).status
                == TaskStatus::Exited ==> manager.exited(code).tasks[i] == manager.tasks[i],
        manager.running() matches Some(i) ==> manager.exited(code).tasks[i].status
            == TaskStatus::Exited && manager.exited(code).tasks[i].exit_code == Some(code),
{
    let done = manager.ended(code);
    lemma_scan_ready_found(done, done.current + 1, done.tasks.len() as int);
}

} // verus!
