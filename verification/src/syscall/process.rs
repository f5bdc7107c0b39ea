//! Process-management system calls.
//!
//! Every handler acts for the current task of the task manager it is
//! given.  A handler that fails returns a negative number and leaves the
//! manager as it was.
use crate::config::{MAX_SYSCALL_NUM, MICRO_PER_SEC};
use crate::mm::address::{
    is_aligned, page_ceil, page_floor, spec_is_aligned, spec_page_ceil, spec_page_floor,
};
use crate::mm::layout::page_mapped;
use crate::mm::permission::MapPermission;
use crate::syscall::abi::{le_bytes, lemma_le_bytes_len, push_le};
use crate::task::control_block::TaskView;
use crate::task::manager::TaskManager;
use crate::task::status::TaskStatus;
use crate::task::table::ManagerView;
use crate::timer::{get_time_ms, get_time_us, spec_time_ms, spec_time_us};
use vstd::prelude::*;

verus! {

/// Bytes that a `TimeVal` takes in user memory.
pub const TIME_VAL_SIZE: usize = 16;

/// Bytes that a `TaskInfo` takes in user memory.
pub const TASK_INFO_SIZE: usize = 2016;

/// A time as user code gets it: whole seconds, and the microseconds of the
/// second that has begun.
#[derive(Clone, Copy, Debug, PartialEq, Eq, Structural)]
pub struct TimeVal {
    pub sec: usize,
    pub usec: usize,
}

impl TimeVal {
    /// `us` microseconds as seconds and microseconds.
    pub open spec fn spec_from_us(us: int) -> TimeVal {
        TimeVal {
            sec: (us / (MICRO_PER_SEC as int)) as usize,
            usec: (us % (MICRO_PER_SEC as int)) as usize,
        }
    }

    /// The bytes of the time in user memory: the seconds in eight bytes,
    /// then the microseconds in eight bytes.
    pub open spec fn spec_bytes(self) -> Seq<u8> {
        le_bytes(self.sec as nat, 8) + le_bytes(self.usec as nat, 8)
    }

    /// Whether `self` comes before `other` or is the same time.
    pub open spec fn spec_le(self, other: TimeVal) -> bool {
        self.sec < other.sec || (self.sec == other.sec && self.usec <= other.usec)
    }

    /// `us` microseconds as seconds and microseconds.
    pub fn from_us(us: usize) -> (time: TimeVal)
        ensures
            time == TimeVal::spec_from_us(us as int),
            time.sec * MICRO_PER_SEC + time.usec == us,
            time.usec < MICRO_PER_SEC,
    {
        TimeVal { sec: us / MICRO_PER_SEC, usec: us % MICRO_PER_SEC }
    }

    /// The bytes of the time in user memory.
    pub fn to_bytes(&self) -> (bytes: Vec<u8>)
        ensures
            bytes@ == self.spec_bytes(),
            bytes@.len() == TIME_VAL_SIZE,
    {
        let mut bytes: Vec<u8> = Vec::new();
        push_le(&mut bytes, self.sec as u64, 8);
        push_le(&mut bytes, self.usec as u64, 8);
        proof {
            lemma_le_bytes_len(self.sec as nat, 8);
            lemma_le_bytes_len(self.usec as nat, 8);
            assert(bytes@ =~= self.spec_bytes());
        }
        bytes
    }
}

/// The bytes of call counters in user memory: four bytes for each, in the
/// order of the call numbers.
pub open spec fn counts_bytes(counts: Seq<u32>) -> Seq<u8>
    decreases counts.len(),
{
    if counts.len() == 0 {
        Seq::empty()
    } else {
        counts_bytes(counts.drop_last()) + le_bytes(counts.last() as nat, 4)
    }
}

/// The bytes of a task's statistics in user memory: the state in one byte
/// and three bytes of zero, the call counters, four bytes of zero, and the
/// running time in eight bytes.
pub open spec fn task_info_bytes(status: TaskStatus, counts: Seq<u32>, time: nat) -> Seq<u8> {
    seq![status.spec_code(), 0u8, 0u8, 0u8] + counts_bytes(counts) + seq![0u8, 0u8, 0u8, 0u8]
        + le_bytes(time, 8)
}

/// Each counter takes four bytes.
pub proof fn lemma_counts_bytes_len(counts: Seq<u32>)
    ensures
        counts_bytes(counts).len() == 4 * counts.len(),
    decreases counts.len(),
{
    if counts.len() > 0 {
        lemma_counts_bytes_len(counts.drop_last());
        lemma_le_bytes_len(counts.last() as nat, 4);
    }
}

/// What a task can learn of itself.
#[derive(Clone, Copy, Debug)]
pub struct TaskInfo {
    /// Where the task stands in its life cycle.
    pub status: TaskStatus,
    /// How often the task has made each system call, by call number.
    pub syscall_times: [u32; MAX_SYSCALL_NUM],
    /// Milliseconds since the task was created.
    pub time: usize,
}

impl TaskInfo {
    /// The bytes of the statistics in user memory.
    pub open spec fn spec_bytes(self) -> Seq<u8> {
        task_info_bytes(self.status, self.syscall_times@, self.time as nat)
    }

    /// The bytes of the statistics in user memory.
    pub fn to_bytes(&self) -> (bytes: Vec<u8>)
        ensures
            bytes@ == self.spec_bytes(),
            bytes@.len() == TASK_INFO_SIZE,
    {
        let mut bytes: Vec<u8> = Vec::new();
        bytes.push(self.status.code());
        bytes.push(0);
        bytes.push(0);
        bytes.push(0);
        let ghost head = bytes@;
        assert(head =~= seq![self.status.spec_code(), 0u8, 0u8, 0u8]);
        let mut i: usize = 0;
        while i < MAX_SYSCALL_NUM
            invariant
                i <= MAX_SYSCALL_NUM,
                bytes@ == head + counts_bytes(self.syscall_times@.take(i as int)),
            decreases MAX_SYSCALL_NUM - i,
        {
            let ghost before = bytes@;
            push_le(&mut bytes, self.syscall_times[i] as u64, 4);
            proof {
                let taken = self.syscall_times@.take(i + 1);
                assert(taken.drop_last() =~= self.syscall_times@.take(i as int));
                assert(bytes@ =~= head + counts_bytes(taken));
            }
            i += 1;
        }
        assert(self.syscall_times@.take(MAX_SYSCALL_NUM as int) =~= self.syscall_times@);
        bytes.push(0);
        bytes.push(0);
        bytes.push(0);
        bytes.push(0);
        let ghost body = bytes@;
        push_le(&mut bytes, self.time as u64, 8);
        proof {
            assert(body =~= head + counts_bytes(self.syscall_times@) + seq![0u8, 0u8, 0u8, 0u8]);
            lemma_counts_bytes_len(self.syscall_times@);
            lemma_le_bytes_len(self.time as nat, 8);
        }
        bytes
    }
}

/// Whether `start` and `len` name a range of memory that a mapping call
/// takes: it starts on a page boundary, is not empty, and ends inside the
/// address space.
pub open spec fn span_valid(start: int, len: int) -> bool {
    &&& spec_is_aligned(start)
    &&& len > 0
    &&& start + len <= usize::MAX
}

/// Whether `port` asks for rights in the way `sys_mmap` takes them: bit 1
/// for readable, bit 2 for writable, bit 3 for executable, bit 4 for
/// user-accessible; at least one of them set, and no other bit.
pub open spec fn port_valid(port: usize) -> bool {
    port & !0x1eusize == 0 && port & 0x1eusize != 0
}

/// The rights that `port` asks for; user code may always reach what it
/// maps.
pub open spec fn port_permission(port: usize) -> MapPermission {
    MapPermission {
        readable: port & 0x2usize != 0,
        writable: port & 0x4usize != 0,
        executable: port & 0x8usize != 0,
        user: true,
    }
}

/// Whether `sys_mmap` succeeds: the range and the rights are well formed,
/// and the pages of the range can be mapped for the current task.
pub open spec fn mmap_allowed(manager: ManagerView, start: usize, len: usize, port: usize) -> bool {
    &&& span_valid(start as int, len as int)
    &&& port_valid(port)
    &&& manager.can_map(spec_page_floor(start as int), spec_page_ceil(start + len))
}

/// Whether `sys_munmap` succeeds: the range is well formed, and every page
/// of it is mapped for the current task.
pub open spec fn munmap_allowed(manager: ManagerView, start: usize, len: usize) -> bool {
    &&& span_valid(start as int, len as int)
    &&& manager.can_unmap(spec_page_floor(start as int), spec_page_ceil(start + len))
}

/// Milliseconds from `created_ms` to `now_ms`; none where the clock reads
/// less than it did then.
pub open spec fn spec_elapsed(now_ms: int, created_ms: int) -> int {
    if now_ms >= created_ms {
        now_ms - created_ms
    } else {
        0
    }
}

/// What `sys_task_info` writes for `task` when the counter reads `ticks`.
pub open spec fn task_report(task: TaskView, ticks: int) -> Seq<u8> {
    task_info_bytes(
        task.status,
        task.syscall_times,
        spec_elapsed(spec_time_ms(ticks), task.created_ms) as nat,
    )
}

/// The running task exits with `exit_code`.  It is ended for good, its
/// memory goes back to the frame pool, and the next ready task is put on
/// the processor.  The call does not come back to the task that made it:
/// the result is the task to run now, or `None` once every task has exited.
pub fn sys_exit(manager: &mut TaskManager, exit_code: i32) -> (running: Option<usize>)
    requires
        old(manager).wf(),
    ensures
        final(manager).wf(),
        final(manager)@ == old(manager)@.exited(exit_code),
        (match running {
            Some(i) => final(manager)@.running() == Some(i as int),
            None => final(manager)@.running() is None,
        }),
{
    manager.exit_current_and_run_next(exit_code)
}

/// The running task gives up the processor.  It waits, and the next ready
/// task in the round, which is the same one where no other is ready, is
/// put on the processor.  Returns 0.
pub fn sys_yield(manager: &mut TaskManager) -> (code: isize)
    requires
        old(manager).wf(),
    ensures
        final(manager).wf(),
        final(manager)@ == old(manager)@.yielded(),
        code == 0,
{
    manager.suspend_current_and_run_next();
    0
}

/// Writes the time at which the counter reads `ticks` to address `ts` in
/// the memory of the current task, as a `TimeVal`.  Returns 0; or -1,
/// with nothing written, where there is no task or user code may not
/// write all sixteen bytes.  The time zone `tz` is not used.
pub fn sys_get_time(manager: &mut TaskManager, ts: usize, tz: usize, ticks: usize) -> (code: isize)
    requires
        old(manager).wf(),
    ensures
        final(manager).wf(),
        code == 0 || code == -1,
        (code == 0) == old(manager)@.can_write(ts as int, TIME_VAL_SIZE as int),
        code == 0 ==> final(manager)@ == old(manager)@.written(
            ts as int,
            TimeVal::spec_from_us(spec_time_us(ticks as int)).spec_bytes(),
        ),
        code == -1 ==> final(manager)@ == old(manager)@,
{
    let time = TimeVal::from_us(get_time_us(ticks));
    let bytes = time.to_bytes();
    if manager.write_current(ts, bytes.as_slice()) {
        0
    } else {
        -1
    }
}

/// Writes what the current task can learn of itself to address `ti` in
/// its memory, as a `TaskInfo`: its state, its call counters, and the
/// milliseconds from its creation to the time at which the counter reads
/// `ticks`.  Returns 0; or -1, with nothing written, where there is no
/// task or user code may not write all the bytes.
pub fn sys_task_info(manager: &mut TaskManager, ti: usize, ticks: usize) -> (code: isize)
    requires
        old(manager).wf(),
    ensures
        final(manager).wf(),
        code == 0 || code == -1,
        (code == 0) == old(manager)@.can_write(ti as int, TASK_INFO_SIZE as int),
        code == 0 ==> final(manager)@ == old(manager)@.written(
            ti as int,
            task_report(old(manager)@.task(), ticks as int),
        ),
        code == -1 ==> final(manager)@ == old(manager)@,
{
    let (status, syscall_times, created_ms) = match manager.current_task_stats() {
        Some(stats) => stats,
        None => {
            return -1;
        },
    };
    let now_ms = get_time_ms(ticks);
    let time: usize = if now_ms >= created_ms {
        now_ms - created_ms
    } else {
        0
    };
    let info = TaskInfo { status, syscall_times, time };
    let bytes = info.to_bytes();
    if manager.write_current(ti, bytes.as_slice()) {
        0
    } else {
        -1
    }
}

/// Maps the `len` bytes from address `start` on for the current task, in
/// whole pages, every byte zero, with the rights that `port` asks for and
/// user access.  Returns 1; or -1, with nothing changed, where `start` is
/// not on a page boundary, `len` is 0, the range leaves the address space,
/// `port` asks for no right or has a bit set that stands for none, a page
/// of the range is mapped already, or the frame pool has too few frames.
pub fn sys_mmap(manager: &mut TaskManager, start: usize, len: usize, port: usize) -> (code: isize)
    requires
        old(manager).wf(),
    ensures
        final(manager).wf(),
        code == 1 || code == -1,
        (code == 1) == mmap_allowed(old(manager)@, start, len, port),
        code == 1 ==> final(manager)@ == old(manager)@.mapped(
            spec_page_floor(start as int),
            spec_page_ceil(start + len),
            port_permission(port),
        ),
        code == -1 ==> final(manager)@ == old(manager)@,
        !spec_is_aligned(start as int) || len == 0 || port & !0x1eusize != 0 ==> code == -1
            && final(manager)@ == old(manager)@,
{
    if !is_aligned(start) || len == 0 || len > usize::MAX - start {
        return -1;
    }
    if port & !0x1eusize != 0 || port & 0x1eusize == 0 {
        return -1;
    }
    let perm = MapPermission {
        readable: port & 0x2usize != 0,
        writable: port & 0x4usize != 0,
        executable: port & 0x8usize != 0,
        user: true,
    };
    if manager.map_current(page_floor(start), page_ceil(start + len), perm) {
        1
    } else {
        -1
    }
}

/// Unmaps the `len` bytes from address `start` on for the current task, in
/// whole pages; their frames go back to the pool.  Returns 1; or -1, with
/// nothing changed, where `start` is not on a page boundary, `len` is 0,
/// the range leaves the address space, or a page of the range is not
/// mapped.
pub fn sys_munmap(manager: &mut TaskManager, start: usize, len: usize) -> (code: isize)
    requires
        old(manager).wf(),
    ensures
        final(manager).wf(),
        code == 1 || code == -1,
        (code == 1) == munmap_allowed(old(manager)@, start, len),
        code == 1 ==> final(manager)@ == old(manager)@.unmapped(
            spec_page_floor(start as int),
            spec_page_ceil(start + len),
        ),
        code == -1 ==> final(manager)@ == old(manager)@,
        (exists|vpn: int|
            spec_page_floor(start as int) <= vpn < spec_page_ceil(start + len) && !page_mapped(
                old(manager)@.task().space,
                vpn,
            )) ==> code == -1 && final(manager)@ == old(manager)@,
{
    if !is_aligned(start) || len == 0 || len > usize::MAX - start {
        return -1;
    }
    if manager.unmap_current(page_floor(start), page_ceil(start + len)) {
        1
    } else {
        -1
    }
}

/// Moves the end of the current task's heap by `size` bytes, up or down,
/// mapping or unmapping pages as the heap comes to need them.  Returns the
/// end of the heap as it was; or -1, with nothing changed, where there is
/// no task, the new end would lie below the start of the heap or above the
/// largest address an end can have, the pages needed are not free, the
/// frame pool has too few frames, or the area of the heap no longer starts
/// where the heap starts or no longer reaches to the new end.
pub fn sys_sbrk(manager: &mut TaskManager, size: i32) -> (code: isize)
    requires
        old(manager).wf(),
    ensures
        final(manager).wf(),
        (old(manager)@.can_move_brk(size as int) ==> {
            &&& code == old(manager)@.task().program_brk
            &&& code >= 0
            &&& final(manager)@ == old(manager)@.brk_moved(size as int)
        }),
        (!old(manager)@.can_move_brk(size as int) ==> {
            &&& code == -1
            &&& final(manager)@ == old(manager)@
        }),
{
    proof {
        manager.lemma_wf();
        if manager@.has_task() {
            assert(manager@.tasks[manager@.current].wf());
        }
    }
    if let Some(old_brk) = manager.change_program_brk(size) {
        old_brk as isize
    } else {
        -1
    }
}

} // verus!
