//! Task control blocks and the round-robin task manager.
use vstd::prelude::*;
use crate::address::{PhysPageNum, VirtAddr, VirtPageNum, VPN_LIMIT, PAGE_SIZE, ceil_page};
use crate::frame_allocator::{only_took, StackFrameAllocator};
use crate::memory_set::{fresh_frames, framed, unframed, MapPermission, MemorySet, MAP_U};
use crate::page_table::{PageTableEntry, PTE_V};
use crate::up::UPSafeCell;

verus! {

/// Number of syscall identifiers that are counted.
pub const MAX_SYSCALL_NUM: usize = 500;

#[derive(Clone, Copy, Debug, PartialEq, Eq, Structural)]
pub enum TaskStatus {
    UnInit,
    Ready,
    Running,
    Exited,
}

/// The registers that resume a suspended task: return address, stack
/// pointer and the callee-saved `s0`..`s11`.
#[derive(Clone, Copy, Debug)]
pub struct TaskContext {
    pub ra: usize,
    pub sp: usize,
    pub s: [usize; 12],
}

impl TaskContext {
    pub fn zero_init() -> (r: Self)
        ensures
            r.ra == 0 && r.sp == 0,
            forall|i: int| 0 <= i < 12 ==> r.s[i] == 0,
    {
        TaskContext { ra: 0, sp: 0, s: [0usize; 12] }
    }

    /// A context that resumes at `entry` (the trap-return path) on the kernel
    /// stack whose top is `kstack_ptr`.
    pub fn goto_trap_return(entry: usize, kstack_ptr: usize) -> (r: Self)
        ensures
            r.ra == entry && r.sp == kstack_ptr,
            forall|i: int| 0 <= i < 12 ==> r.s[i] == 0,
    {
        TaskContext { ra: entry, sp: kstack_ptr, s: [0usize; 12] }
    }
}

/// One schedulable task.
pub struct TaskControlBlock {
    pub task_status: TaskStatus,
    pub task_cx: TaskContext,
    pub memory_set: MemorySet,
    pub trap_cx_ppn: PhysPageNum,
    pub base_size: usize,
    /// When the task was first dispatched, in microseconds; 0 until then.
    pub start_time: usize,
    /// How often the task has made each syscall.
    pub syscall_times: Vec<u32>,
}

impl TaskControlBlock {
    pub open spec fn wf(&self) -> bool {
        &&& self.memory_set.wf()
        &&& self.syscall_times.len() == MAX_SYSCALL_NUM
    }

    /// A Ready task over an address space that its image was loaded into.
    pub fn new(memory_set: MemorySet, trap_cx_ppn: PhysPageNum, base_size: usize, task_cx: TaskContext) -> (r: Self)
        requires
            memory_set.wf(),
        ensures
            r.wf(),
            r.task_status == TaskStatus::Ready,
            r.task_cx == task_cx,
            r.memory_set == memory_set,
            r.trap_cx_ppn == trap_cx_ppn,
            r.base_size == base_size,
            r.start_time == 0,
            forall|i: int| 0 <= i < MAX_SYSCALL_NUM ==> r.syscall_times@[i] == 0,
    {
        let mut syscall_times: Vec<u32> = Vec::new();
        let mut i: usize = 0;
        while i < MAX_SYSCALL_NUM
            invariant
                i <= MAX_SYSCALL_NUM,
                syscall_times.len() == i,
                forall|j: int| 0 <= j < i ==> syscall_times@[j] == 0,
            decreases MAX_SYSCALL_NUM - i,
        {
            syscall_times.push(0);
            i = i + 1;
        }
        TaskControlBlock {
            task_status: TaskStatus::Ready,
            task_cx,
            memory_set,
            trap_cx_ppn,
            base_size,
            start_time: 0,
            syscall_times,
        }
    }

    pub fn get_user_token(&self) -> (r: u64)
        ensures
            r == self.memory_set.token_spec(),
    {
        self.memory_set.token()
    }

    /// The physical page that holds the task's trap context.
    pub fn get_trap_cx(&self) -> (r: PhysPageNum)
        ensures
            r == self.trap_cx_ppn,
    {
        self.trap_cx_ppn
    }
}

/// The index `d` places after `cur` among `n` tasks, for `cur < n` and `d <= n`.
pub open spec fn cyclic(cur: int, d: int, n: int) -> int {
    if cur + d >= n {
        cur + d - n
    } else {
        cur + d
    }
}

/// The first Ready task among `st[cyclic(cur, d, n)]` for `d` from `from` to `n`.
pub open spec fn scan_ready(st: Seq<TaskStatus>, cur: int, from: int) -> Option<int>
    decreases st.len() + 1 - from,
{
    if from > st.len() || from < 1 {
        None
    } else if st[cyclic(cur, from, st.len() as int)] == TaskStatus::Ready {
        Some(cyclic(cur, from, st.len() as int))
    } else {
        scan_ready(st, cur, from + 1)
    }
}

/// The task that round robin picks after `cur`: the first Ready one that
/// follows it cyclically, ending with `cur` itself.
pub open spec fn next_ready(st: Seq<TaskStatus>, cur: int) -> Option<int> {
    scan_ready(st, cur, 1)
}

/// A valid `port`: no bit above bit 2, and at least one of bits 0 (read),
/// 1 (write) and 2 (execute).
pub open spec fn port_ok(port: usize) -> bool {
    port < 8 && port != 0
}

/// `port_ok` is the bit-level rule: nothing above bit 2, something in bits 0 to 2.
pub proof fn lemma_port_ok_bits(port: usize)
    ensures
        port_ok(port) <==> ((port & !7usize) == 0 && (port & 7usize) != 0),
{
    assert(((port & !7usize) == 0) <==> port < 8) by (bit_vector);
    assert(port < 8 ==> (((port & 7usize) != 0) <==> port != 0)) by (bit_vector);
}

/// The leaf flags that `mmap` gives for `port`: its bits moved one place up
/// to the R, W, X positions, with User and Valid.
pub open spec fn port_flags(port: usize) -> u8 {
    (((port as u8) << 1u8) | MAP_U) | PTE_V
}

/// The first page of a region that starts at `start`.
pub open spec fn first_page(start: usize) -> int {
    start as int / 4096
}

/// One past the last page of the region `[start, start + len)`.
pub open spec fn end_page(start: usize, len: usize) -> int {
    ceil_page((start + len) as usize)
}

/// A page-aligned region that lies in the address space.
pub open spec fn region_ok(start: usize, len: usize) -> bool {
    &&& start % 4096 == 0
    &&& start + len <= usize::MAX
    &&& end_page(start, len) <= VPN_LIMIT
}

/// No page of the region is mapped in `m`.
pub open spec fn region_free(m: Map<usize, PageTableEntry>, start: usize, len: usize) -> bool {
    forall|v: usize| first_page(start) <= v < end_page(start, len) ==> !(#[trigger] m.contains_key(v))
}

/// Every page of the region is mapped in `m`.
pub open spec fn region_full(m: Map<usize, PageTableEntry>, start: usize, len: usize) -> bool {
    forall|v: usize| first_page(start) <= v < end_page(start, len) ==> #[trigger] m.contains_key(v)
}

/// The checks that `mmap` makes before it changes anything.
pub open spec fn mmap_accepts(m: Map<usize, PageTableEntry>, start: usize, len: usize, port: usize) -> bool {
    port_ok(port) && region_ok(start, len) && region_free(m, start, len)
}

/// The checks that `munmap` makes before it changes anything.
pub open spec fn munmap_accepts(m: Map<usize, PageTableEntry>, start: usize, len: usize) -> bool {
    region_ok(start, len) && region_full(m, start, len)
}

/// Frames that `mmap` asks to be free: one for each page and two for the
/// tables that the page may need.
pub open spec fn frames_needed(start: usize, len: usize) -> int {
    3 * (end_page(start, len) - first_page(start))
}

/// The frame that backs page `v` of task `i`.
pub open spec fn backing(tasks: Seq<TaskControlBlock>, i: int, v: usize) -> u64 {
    tasks[i].memory_set@[v].ppn_spec()
}

/// Every mapped page of every task is backed by a frame that is out of the
/// pool, and no two mapped pages share a frame.
pub open spec fn frames_owned(tasks: Seq<TaskControlBlock>, a: StackFrameAllocator) -> bool {
    &&& forall|i: int, v: usize| 0 <= i < tasks.len() && #[trigger] tasks[i].memory_set@.contains_key(v)
        ==> a.issued(backing(tasks, i, v)) && !a.free().contains(backing(tasks, i, v))
    &&& forall|i: int, v: usize, j: int, w: usize| 0 <= i < tasks.len() && 0 <= j < tasks.len()
        && #[trigger] tasks[i].memory_set@.contains_key(v) && #[trigger] tasks[j].memory_set@.contains_key(w)
        && (i != j || v != w) ==> backing(tasks, i, v) != backing(tasks, j, w)
}

proof fn lemma_frames_kept(a: Seq<TaskControlBlock>, b: Seq<TaskControlBlock>, alloc: StackFrameAllocator)
    requires
        frames_owned(a, alloc),
        a.len() == b.len(),
        forall|i: int| 0 <= i < a.len() ==> #[trigger] b[i].memory_set == a[i].memory_set,
    ensures
        frames_owned(b, alloc),
{
    assert forall|i: int, v: usize| 0 <= i < b.len() && #[trigger] b[i].memory_set@.contains_key(v)
        implies alloc.issued(backing(b, i, v)) && !alloc.free().contains(backing(b, i, v)) by {
        assert(a[i].memory_set == b[i].memory_set);
    }
    assert forall|i: int, v: usize, j: int, w: usize| 0 <= i < b.len() && 0 <= j < b.len()
        && #[trigger] b[i].memory_set@.contains_key(v) && #[trigger] b[j].memory_set@.contains_key(w)
        && (i != j || v != w) implies backing(b, i, v) != backing(b, j, w) by {
        assert(a[i].memory_set == b[i].memory_set);
        assert(a[j].memory_set == b[j].memory_set);
    }
}

/// What the task manager asks its caller to do after a task gave up the CPU.
#[derive(Clone, Copy, Debug, PartialEq, Eq, Structural)]
pub enum Dispatch {
    /// Save the context of task `current` and resume task `next`.
    Switch { current: usize, next: usize },
    /// No task is Ready: every application has completed.
    AllCompleted,
}

/// Scheduling state: the tasks, the index of the running one, and the frames
/// that address spaces may still take.
pub struct TaskManagerInner {
    pub tasks: Vec<TaskControlBlock>,
    pub current_task: usize,
    pub frame_allocator: StackFrameAllocator,
}

/// The single registry of tasks.
pub struct TaskManager {
    num_app: usize,
    inner: UPSafeCell<TaskManagerInner>,
}

impl TaskManager {
    pub closed spec fn state(&self) -> TaskManagerInner {
        self.inner.value()
    }

    pub open spec fn tasks(&self) -> Seq<TaskControlBlock> {
        self.state().tasks@
    }

    pub open spec fn statuses(&self) -> Seq<TaskStatus> {
        self.tasks().map_values(|t: TaskControlBlock| t.task_status)
    }

    pub open spec fn current(&self) -> int {
        self.state().current_task as int
    }

    /// The mappings of task `i`'s address space.
    pub open spec fn space(&self, i: int) -> Map<usize, PageTableEntry> {
        self.tasks()[i].memory_set@
    }

    pub open spec fn times(&self, i: int) -> Seq<u32> {
        self.tasks()[i].syscall_times@
    }

    pub open spec fn allocator(&self) -> StackFrameAllocator {
        self.state().frame_allocator
    }

    pub closed spec fn wf(&self) -> bool {
        &&& self.num_app == self.state().tasks.len()
        &&& self.num_app > 0
        &&& self.state().current_task < self.num_app
        &&& self.state().frame_allocator.wf()
        &&& forall|i: int| 0 <= i < self.num_app ==> (#[trigger] self.state().tasks@[i]).wf()
        &&& frames_owned(self.state().tasks@, self.state().frame_allocator)
    }

    /// A manager over `tasks`, with task 0 to run first.
    pub fn new(tasks: Vec<TaskControlBlock>, frame_allocator: StackFrameAllocator) -> (r: Self)
        requires
            tasks.len() > 0,
            frame_allocator.wf(),
            forall|i: int| 0 <= i < tasks.len() ==> (#[trigger] tasks@[i]).wf(),
            frames_owned(tasks@, frame_allocator),
        ensures
            r.wf(),
            r.tasks() == tasks@,
            r.current() == 0,
            r.allocator() == frame_allocator,
    {
        let num_app = tasks.len();
        TaskManager {
            num_app,
            inner: UPSafeCell::new(TaskManagerInner { tasks, current_task: 0, frame_allocator }),
        }
    }

    /// Everything of a task but its status and start time.
    pub open spec fn same_task(a: TaskControlBlock, b: TaskControlBlock) -> bool {
        &&& a.memory_set == b.memory_set
        &&& a.syscall_times == b.syscall_times
        &&& a.task_cx == b.task_cx
        &&& a.trap_cx_ppn == b.trap_cx_ppn
        &&& a.base_size == b.base_size
    }

    /// Only the status of task `i` differs between `a` and `b`, where it is `st`.
    pub open spec fn status_set(a: Seq<TaskControlBlock>, b: Seq<TaskControlBlock>, i: int, st: TaskStatus) -> bool {
        &&& a.len() == b.len()
        &&& b[i].task_status == st
        &&& forall|j: int| 0 <= j < a.len() ==> Self::same_task(#[trigger] a[j], b[j])
            && a[j].start_time == b[j].start_time
        &&& forall|j: int| 0 <= j < a.len() && j != i ==> (#[trigger] b[j]).task_status == a[j].task_status
    }

    /// Sets the status of the current task.
    fn mark_current(&mut self, st: TaskStatus)
        requires
            old(self).wf(),
        ensures
            final(self).wf(),
            Self::status_set(old(self).tasks(), final(self).tasks(), old(self).current(), st),
            final(self).current() == old(self).current(),
            final(self).allocator() == old(self).allocator(),
    {
        let inner = self.inner.exclusive_access();
        let current = inner.current_task;
        inner.tasks[current].task_status = st;
    }

    /// The current Running task becomes Ready.
    pub fn mark_current_suspended(&mut self)
        requires
            old(self).wf(),
        ensures
            final(self).wf(),
            Self::status_set(old(self).tasks(), final(self).tasks(), old(self).current(), TaskStatus::Ready),
            final(self).current() == old(self).current(),
            final(self).allocator() == old(self).allocator(),
    {
        self.mark_current(TaskStatus::Ready);
    }

    /// The current Running task becomes Exited.
    pub fn mark_current_exited(&mut self)
        requires
            old(self).wf(),
        ensures
            final(self).wf(),
            Self::status_set(old(self).tasks(), final(self).tasks(), old(self).current(), TaskStatus::Exited),
            final(self).current() == old(self).current(),
            final(self).allocator() == old(self).allocator(),
    {
        self.mark_current(TaskStatus::Exited);
    }

    /// The first Ready task after the current one, cyclically, the current
    /// one last; `None` when no task is Ready.
    pub fn find_next_task(&self) -> (r: Option<usize>)
        requires
            self.wf(),
        ensures
            r matches Some(i) ==> next_ready(self.statuses(), self.current()) == Some(i as int),
            r matches Some(i) ==> i < self.tasks().len() && self.statuses()[i as int] == TaskStatus::Ready,
            r is None ==> next_ready(self.statuses(), self.current()) is None,
    {
        let inner = self.inner.access();
        let current = inner.current_task;
        let n = self.num_app;
        let ghost st = self.statuses();
        let mut d: usize = 0;
        while d < n
            invariant
                d <= n,
                *inner == self.state(),
                current as int == self.current(),
                st == self.statuses(),
                n == st.len(),
                n == inner.tasks.len(),
                current < n,
                st == inner.tasks@.map_values(|t: TaskControlBlock| t.task_status),
                next_ready(st, current as int) == scan_ready(st, current as int, d + 1),
            decreases n - d,
        {
            let id = if d + 1 >= n - current { d + 1 - (n - current) } else { current + d + 1 };
            assert(id as int == cyclic(current as int, d + 1, n as int));
            if inner.tasks[id].task_status == TaskStatus::Ready {
                assert(st[id as int] == TaskStatus::Ready);
                assert(scan_ready(st, current as int, d + 1) == Some(id as int));
                return Some(id);
            }
            assert(st[id as int] != TaskStatus::Ready);
            d = d + 1;
        }
        None
    }

    /// Dispatches the next Ready task, stamping its start time at its first
    /// dispatch, and says which switch to make; or says that none is Ready.
    pub fn run_next_task(&mut self, now_us: usize) -> (r: Dispatch)
        requires
            old(self).wf(),
        ensures
            final(self).wf(),
            final(self).allocator() == old(self).allocator(),
            match r {
                Dispatch::Switch { current, next } => {
                    &&& current == old(self).current()
                    &&& next_ready(old(self).statuses(), old(self).current()) == Some(next as int)
                    &&& final(self).current() == next
                    &&& Self::dispatched(old(self).tasks(), final(self).tasks(), next as int, now_us)
                },
                Dispatch::AllCompleted => {
                    &&& next_ready(old(self).statuses(), old(self).current()) is None
                    &&& *final(self) == *old(self)
                },
            },
    {
        match self.find_next_task() {
            Some(next) => {
                let inner = self.inner.exclusive_access();
                let current = inner.current_task;
                inner.tasks[next].task_status = TaskStatus::Running;
                inner.current_task = next;
                if inner.tasks[next].start_time == 0 {
                    inner.tasks[next].start_time = now_us;
                }
                Dispatch::Switch { current, next }
            },
            None => Dispatch::AllCompleted,
        }
    }

    /// `b` is `a` after task `i` was dispatched at `now_us`.
    pub open spec fn dispatched(a: Seq<TaskControlBlock>, b: Seq<TaskControlBlock>, i: int, now_us: usize) -> bool {
        &&& a.len() == b.len()
        &&& b[i].task_status == TaskStatus::Running
        &&& b[i].start_time == (if a[i].start_time == 0 { now_us } else { a[i].start_time })
        &&& forall|j: int| 0 <= j < a.len() ==> Self::same_task(#[trigger] a[j], b[j])
        &&& forall|j: int| 0 <= j < a.len() && j != i ==> (#[trigger] b[j]).task_status == a[j].task_status
            && b[j].start_time == a[j].start_time
    }

    /// `b` is `a` with the address space of task `i` changed alone.
    pub open spec fn space_set(a: Seq<TaskControlBlock>, b: Seq<TaskControlBlock>, i: int) -> bool {
        &&& a.len() == b.len()
        &&& forall|j: int| 0 <= j < a.len() && j != i ==> #[trigger] b[j] == a[j]
        &&& b[i].task_status == a[i].task_status
        &&& b[i].start_time == a[i].start_time
        &&& b[i].syscall_times == a[i].syscall_times
        &&& b[i].task_cx == a[i].task_cx
        &&& b[i].trap_cx_ppn == a[i].trap_cx_ppn
        &&& b[i].base_size == a[i].base_size
    }

    /// Maps `[start, start + len)` into the current task's address space,
    /// each page on a fresh frame with the permission that `port` gives.
    /// Returns 0, or -1 with nothing changed when the region is not aligned,
    /// `port` is not valid, a page of the region is mapped already, the region
    /// leaves the address space, or the pool lacks frames.
    pub fn mmap(&mut self, start: usize, len: usize, port: usize) -> (r: isize)
        requires
            old(self).wf(),
        ensures
            final(self).wf(),
            r == 0 || r == -1,
            r == 0 <==> mmap_accepts(old(self).space(old(self).current()), start, len, port)
                && old(self).allocator().available() >= frames_needed(start, len),
            r == 0 ==> {
                &&& framed(old(self).space(old(self).current()), final(self).space(old(self).current()),
                    first_page(start), end_page(start, len), port_flags(port))
                &&& Self::space_set(old(self).tasks(), final(self).tasks(), old(self).current())
                &&& final(self).current() == old(self).current()
                &&& final(self).allocator().available() + frames_needed(start, len) >= old(self).allocator().available()
                &&& fresh_frames(final(self).space(old(self).current()), first_page(start), end_page(start, len),
                    old(self).allocator().free(), final(self).allocator().free())
            },
            r == -1 ==> *final(self) == *old(self),
    {
        if start % PAGE_SIZE != 0 || port >= 8 || port == 0 {
            return -1;
        }
        if len > usize::MAX - start {
            return -1;
        }
        let start_address = VirtAddr(start);
        let end_address = VirtAddr(start + len);
        let s = start_address.floor();
        let e = end_address.ceil();
        if e.0 > VPN_LIMIT {
            return -1;
        }
        let ghost cur = self.current();
        let ghost m = self.space(cur);
        {
            let inner = self.inner.access();
            let current = inner.current_task;
            assert(inner.tasks@[current as int].wf());
            let mut vpn = s.0;
            while vpn < e.0
                invariant
                    *self == *old(self),
                    self.wf(),
                    *inner == self.state(),
                    current as int == cur,
                    current == inner.current_task,
                    port_ok(port),
                    start % 4096 == 0,
                    start + len <= usize::MAX,
                    vpn <= e.0,
                    inner.tasks@[cur].wf(),
                    m == inner.tasks@[cur].memory_set@,
                    current < inner.tasks.len(),
                    s.0 <= vpn,
                    e.0 <= VPN_LIMIT,
                    s.0 == first_page(start),
                    e.0 == end_page(start, len),
                    forall|v: usize| s.0 <= v < vpn ==> !(#[trigger] m.contains_key(v)),
                decreases e.0 - vpn,
            {
                if let Some(pte) = inner.tasks[current].memory_set.translate(VirtPageNum(vpn)) {
                    if pte.is_valid() {
                        return -1;
                    }
                }
                vpn = vpn + 1;
            }
            if inner.frame_allocator.available_frames() < 3 * ((e.0 - s.0) as u64) {
                return -1;
            }
        }
        let map_permission = MapPermission { bits: ((port as u8) << 1u8) | MAP_U };
        let inner = self.inner.exclusive_access();
        let current = inner.current_task;
        assert(inner.tasks@[current as int].wf());
        let ghost before = inner.tasks@;
        inner.tasks[current].memory_set.insert_framed_area(start_address, end_address, map_permission,
            &mut inner.frame_allocator);
        proof {
            assert forall|i: int| 0 <= i < inner.tasks.len() implies (#[trigger] inner.tasks@[i]).wf() by {
                if i != current {
                    assert(inner.tasks@[i] == before[i]);
                }
            }
        }
        0
    }

    /// Unmaps `[start, start + len)` from the current task's address space
    /// and gives the frames back. Returns 0, or -1 with nothing changed when
    /// the region is not aligned, leaves the address space, or holds a page
    /// that is not mapped.
    pub fn munmap(&mut self, start: usize, len: usize) -> (r: isize)
        requires
            old(self).wf(),
        ensures
            final(self).wf(),
            r == 0 || r == -1,
            r == 0 <==> munmap_accepts(old(self).space(old(self).current()), start, len),
            r == 0 ==> {
                &&& unframed(old(self).space(old(self).current()), final(self).space(old(self).current()),
                    first_page(start), end_page(start, len))
                &&& Self::space_set(old(self).tasks(), final(self).tasks(), old(self).current())
                &&& final(self).current() == old(self).current()
                &&& final(self).allocator().available() == old(self).allocator().available()
                    + (end_page(start, len) - first_page(start))
                &&& old(self).allocator().free().subset_of(final(self).allocator().free())
                &&& forall|v: usize| first_page(start) <= v < end_page(start, len) ==> final(self).allocator().free().contains(
                    #[trigger] old(self).space(old(self).current())[v].ppn_spec())
            },
            r == -1 ==> *final(self) == *old(self),
    {
        if start % PAGE_SIZE != 0 {
            return -1;
        }
        if len > usize::MAX - start {
            return -1;
        }
        let start_address = VirtAddr(start);
        let end_address = VirtAddr(start + len);
        let s = start_address.floor();
        let e = end_address.ceil();
        if e.0 > VPN_LIMIT {
            return -1;
        }
        let ghost cur = self.current();
        let ghost m = self.space(cur);
        {
            let inner = self.inner.access();
            let current = inner.current_task;
            assert(inner.tasks@[current as int].wf());
            let mut vpn = s.0;
            while vpn < e.0
                invariant
                    *self == *old(self),
                    self.wf(),
                    *inner == self.state(),
                    current as int == cur,
                    current == inner.current_task,
                    start % 4096 == 0,
                    start + len <= usize::MAX,
                    vpn <= e.0,
                    inner.tasks@[cur].wf(),
                    m == inner.tasks@[cur].memory_set@,
                    current < inner.tasks.len(),
                    s.0 <= vpn,
                    e.0 <= VPN_LIMIT,
                    s.0 == first_page(start),
                    e.0 == end_page(start, len),
                    forall|v: usize| s.0 <= v < vpn ==> #[trigger] m.contains_key(v),
                decreases e.0 - vpn,
            {
                match inner.tasks[current].memory_set.translate(VirtPageNum(vpn)) {
                    None => {
                        return -1;
                    },
                    Some(pte) => {
                        if !pte.is_valid() {
                            return -1;
                        }
                    },
                }
                vpn = vpn + 1;
            }
        }
        let inner = self.inner.exclusive_access();
        let current = inner.current_task;
        let ghost before = inner.tasks@;
        let mut vpn = s.0;
        assert(m.restrict(m.dom().filter(|v: usize| !(s.0 <= v < s.0))) =~= m);
        while vpn < e.0
            invariant
                inner.frame_allocator.wf(),
                inner.frame_allocator.available() >= old(self).allocator().available(),
                current == inner.current_task,
                current < inner.tasks.len(),
                inner.tasks.len() == before.len(),
                s.0 <= vpn <= e.0,
                e.0 <= VPN_LIMIT,
                s.0 == first_page(start),
                e.0 == end_page(start, len),
                inner.tasks@[current as int].wf(),
                frames_owned(inner.tasks@, inner.frame_allocator),
                inner.frame_allocator.available() == old(self).allocator().available() + (vpn - s.0),
                old(self).allocator().free().subset_of(inner.frame_allocator.free()),
                forall|u: usize| s.0 <= u < vpn ==> inner.frame_allocator.free().contains(#[trigger] m[u].ppn_spec()),
                Self::space_set(before, inner.tasks@, current as int),
                unframed(m, inner.tasks@[current as int].memory_set@, s.0 as int, vpn as int),
                forall|v: usize| vpn <= v < e.0 ==> #[trigger] m.contains_key(v),
            decreases e.0 - vpn,
        {
            let ghost prev = inner.tasks@[current as int].memory_set@;
            assert(prev.contains_key(vpn));
            let ghost t0 = inner.tasks@;
            let ghost a0 = inner.frame_allocator;
            proof {
                assert(t0[current as int].memory_set@.contains_key(vpn));
            }
            inner.tasks[current].memory_set.munmap(VirtPageNum(vpn), &mut inner.frame_allocator);
            proof {
                let t1 = inner.tasks@;
                let a1 = inner.frame_allocator;
                let c = current as int;
                let p = backing(t0, c, vpn);
                assert(p == m[vpn].ppn_spec());
                assert(a1.free() == a0.free().insert(p));
                assert forall|i: int| 0 <= i < t0.len() && i != c implies #[trigger] t1[i] == t0[i] by {}
                assert forall|i: int, v: usize| 0 <= i < t1.len() && #[trigger] t1[i].memory_set@.contains_key(v)
                    implies a1.issued(backing(t1, i, v)) && !a1.free().contains(backing(t1, i, v)) by {
                    assert(t0[i].memory_set@.contains_key(v));
                    assert(backing(t1, i, v) == backing(t0, i, v));
                    assert(i != c || v != vpn);
                }
                assert forall|i: int, v: usize, j: int, w: usize| 0 <= i < t1.len() && 0 <= j < t1.len()
                    && #[trigger] t1[i].memory_set@.contains_key(v) && #[trigger] t1[j].memory_set@.contains_key(w)
                    && (i != j || v != w) implies backing(t1, i, v) != backing(t1, j, w) by {
                    assert(t0[i].memory_set@.contains_key(v) && t0[j].memory_set@.contains_key(w));
                    assert(backing(t1, i, v) == backing(t0, i, v));
                    assert(backing(t1, j, w) == backing(t0, j, w));
                }
                assert forall|u: usize| s.0 <= u < vpn + 1 implies a1.free().contains(#[trigger] m[u].ppn_spec()) by {}
                let now = inner.tasks@[current as int].memory_set@;
                assert(now =~= m.restrict(m.dom().filter(|v: usize| !(s.0 <= v < vpn + 1))));
            }
            vpn = vpn + 1;
        }
        proof {
            assert forall|i: int| 0 <= i < inner.tasks.len() implies (#[trigger] inner.tasks@[i]).wf() by {
                if i != current {
                    assert(inner.tasks@[i] == before[i]);
                }
            }
        }
        0
    }

    /// Task 0 becomes Running with its start time stamped; returns the
    /// context to switch to.
    pub fn run_first_task(&mut self, now_us: usize) -> (r: TaskContext)
        requires
            old(self).wf(),
        ensures
            final(self).wf(),
            r == old(self).tasks()[0].task_cx,
            final(self).current() == old(self).current(),
            final(self).allocator() == old(self).allocator(),
            final(self).tasks().len() == old(self).tasks().len(),
            final(self).tasks()[0].task_status == TaskStatus::Running,
            final(self).tasks()[0].start_time == now_us,
            forall|j: int| 0 <= j < old(self).tasks().len() ==> Self::same_task(#[trigger] old(self).tasks()[j],
                final(self).tasks()[j]),
            forall|j: int| 0 < j < old(self).tasks().len() ==> #[trigger] final(self).tasks()[j] == old(self).tasks()[j],
    {
        let inner = self.inner.exclusive_access();
        inner.tasks[0].task_status = TaskStatus::Running;
        inner.tasks[0].start_time = now_us;
        inner.tasks[0].task_cx
    }

    /// The saved context of task `i`.
    pub fn task_context(&self, i: usize) -> (r: TaskContext)
        requires
            self.wf(),
            i < self.tasks().len(),
        ensures
            r == self.tasks()[i as int].task_cx,
    {
        self.inner.access().tasks[i].task_cx
    }

    /// The status of task `i`.
    pub fn task_status(&self, i: usize) -> (r: TaskStatus)
        requires
            self.wf(),
            i < self.tasks().len(),
        ensures
            r == self.statuses()[i as int],
    {
        self.inner.access().tasks[i].task_status
    }

    /// The index of the current task.
    pub fn current_task(&self) -> (r: usize)
        requires
            self.wf(),
        ensures
            r == self.current(),
    {
        self.inner.access().current_task
    }

    /// The address-space token of the current task.
    pub fn get_current_token(&self) -> (r: u64)
        requires
            self.wf(),
        ensures
            r == self.tasks()[self.current()].memory_set.token_spec(),
    {
        let inner = self.inner.access();
        inner.tasks[inner.current_task].get_user_token()
    }

    /// The physical page of the current task's trap context.
    pub fn get_current_trap_cx(&self) -> (r: PhysPageNum)
        requires
            self.wf(),
        ensures
            r == self.tasks()[self.current()].trap_cx_ppn,
    {
        let inner = self.inner.access();
        inner.tasks[inner.current_task].get_trap_cx()
    }

    /// Counts one more call of syscall `id` by the current task.
    pub fn update_syscall_times(&mut self, id: usize)
        requires
            old(self).wf(),
            id < MAX_SYSCALL_NUM,
        ensures
            final(self).wf(),
            final(self).current() == old(self).current(),
            final(self).allocator() == old(self).allocator(),
            final(self).tasks().len() == old(self).tasks().len(),
            final(self).times(old(self).current()) == old(self).times(old(self).current()).update(id as int,
                old(self).times(old(self).current())[id as int].wrapping_add(1)),
            forall|j: int| 0 <= j < old(self).tasks().len() && j != old(self).current()
                ==> #[trigger] final(self).tasks()[j] == old(self).tasks()[j],
            final(self).statuses() == old(self).statuses(),
    {
        let inner = self.inner.exclusive_access();
        let current = inner.current_task;
        let ghost before = inner.tasks@;
        let t = inner.tasks[current].syscall_times[id];
        inner.tasks[current].syscall_times[id] = t.wrapping_add(1);
        proof {
            assert forall|i: int| 0 <= i < inner.tasks.len() implies (#[trigger] inner.tasks@[i]).wf() by {
                if i != current {
                    assert(inner.tasks@[i] == before[i]);
                }
            }
            assert(inner.tasks@.map_values(|t: TaskControlBlock| t.task_status)
                =~= before.map_values(|t: TaskControlBlock| t.task_status));
        }
    }

    /// The current task's count of each syscall.
    pub fn get_syscall_times(&self) -> (r: Vec<u32>)
        requires
            self.wf(),
        ensures
            r@ == self.times(self.current()),
    {
        let inner = self.inner.access();
        inner.tasks[inner.current_task].syscall_times.clone()
    }

    /// Microseconds from the current task's first dispatch to `now_us`, or 0
    /// if `now_us` is earlier.
    pub fn get_start_time(&self, now_us: usize) -> (r: usize)
        requires
            self.wf(),
        ensures
            r == if now_us >= self.tasks()[self.current()].start_time {
                (now_us - self.tasks()[self.current()].start_time) as usize
            } else {
                0
            },
    {
        let inner = self.inner.access();
        let t = inner.tasks[inner.current_task].start_time;
        if now_us >= t { now_us - t } else { 0 }
    }

    /// The current task's leaf entry for `vpn`, as `MemorySet::translate`.
    pub fn current_translate(&self, vpn: VirtPageNum) -> (r: Option<PageTableEntry>)
        requires
            self.wf(),
            vpn.0 < VPN_LIMIT,
        ensures
            r == self.tasks()[self.current()].memory_set.walk(vpn.0),
            self.space(self.current()).contains_key(vpn.0) ==> r == Some(self.space(self.current())[vpn.0]),
            (r matches Some(e) && e.valid_spec()) <==> self.space(self.current()).contains_key(vpn.0),
    {
        let inner = self.inner.access();
        inner.tasks[inner.current_task].memory_set.translate(vpn)
    }

    /// What the invariant of the manager tells a caller: there is a task, the
    /// current index names one, and each task's address space is well formed
    /// with one counter per syscall identifier.
    pub proof fn lemma_wf(&self)
        requires
            self.wf(),
        ensures
            self.tasks().len() > 0,
            0 <= self.current() < self.tasks().len(),
            self.allocator().wf(),
            frames_owned(self.tasks(), self.allocator()),
            forall|i: int| 0 <= i < self.tasks().len() ==> (#[trigger] self.tasks()[i]).memory_set.wf()
                && self.times(i).len() == MAX_SYSCALL_NUM,
    {
        assert forall|i: int| 0 <= i < self.tasks().len() implies (#[trigger] self.tasks()[i]).memory_set.wf()
            && self.times(i).len() == MAX_SYSCALL_NUM by {
            assert(self.state().tasks@[i].wf());
        }
    }

    /// How many frames the pool can still hand out.
    pub fn available_frames(&self) -> (r: u64)
        requires
            self.wf(),
        ensures
            r as nat == self.allocator().available(),
    {
        self.inner.access().frame_allocator.available_frames()
    }

    pub fn num_app(&self) -> (r: usize)
        requires
            self.wf(),
        ensures
            r == self.tasks().len(),
    {
        self.num_app
    }
}

/// Runs the first task: task 0 becomes Running; returns the context to
/// switch to.
pub fn run_first_task(manager: &mut TaskManager, now_us: usize) -> (r: TaskContext)
    requires
        old(manager).wf(),
    ensures
        final(manager).wf(),
        r == old(manager).tasks()[0].task_cx,
        final(manager).statuses() == old(manager).statuses().update(0, TaskStatus::Running),
        final(manager).tasks()[0].start_time == now_us,
        final(manager).current() == old(manager).current(),
        final(manager).allocator() == old(manager).allocator(),
        final(manager).tasks().len() == old(manager).tasks().len(),
        forall|j: int| 0 <= j < old(manager).tasks().len() ==> TaskManager::same_task(
            #[trigger] old(manager).tasks()[j], final(manager).tasks()[j]),
        forall|j: int| 0 < j < old(manager).tasks().len() ==> #[trigger] final(manager).tasks()[j]
            == old(manager).tasks()[j],
{
    let r = manager.run_first_task(now_us);
    assert(manager.statuses() =~= old(manager).statuses().update(0, TaskStatus::Running));
    r
}

/// Start times after a reschedule: the dispatched task's is stamped with
/// `now_us` if it was never dispatched; all others are kept.
pub open spec fn start_times_after(a: &TaskManager, b: &TaskManager, r: Dispatch, now_us: usize) -> bool {
    &&& b.tasks().len() == a.tasks().len()
    &&& forall|j: int| 0 <= j < a.tasks().len() ==> TaskManager::same_task(#[trigger] a.tasks()[j], b.tasks()[j])
    &&& match r {
        Dispatch::Switch { next, .. } => {
            &&& b.tasks()[next as int].start_time == (if a.tasks()[next as int].start_time == 0 {
                now_us
            } else {
                a.tasks()[next as int].start_time
            })
            &&& forall|j: int| 0 <= j < a.tasks().len() && j != next ==> #[trigger] b.tasks()[j].start_time
                == a.tasks()[j].start_time
        },
        Dispatch::AllCompleted => forall|j: int| 0 <= j < a.tasks().len() ==> #[trigger] b.tasks()[j].start_time
            == a.tasks()[j].start_time,
    }
}

/// What giving up the CPU with the current task set to `st` leads to.
pub open spec fn reschedule(a: &TaskManager, b: &TaskManager, st: TaskStatus, r: Dispatch) -> bool {
    let after = a.statuses().update(a.current(), st);
    match r {
        Dispatch::Switch { current, next } => {
            &&& current == a.current()
            &&& next_ready(after, a.current()) == Some(next as int)
            &&& b.current() == next
            &&& b.statuses() == after.update(next as int, TaskStatus::Running)
        },
        Dispatch::AllCompleted => {
            &&& next_ready(after, a.current()) is None
            &&& b.statuses() == after
            &&& b.current() == a.current()
        },
    }
}

fn mark_and_run_next(manager: &mut TaskManager, st: TaskStatus, now_us: usize) -> (r: Dispatch)
    requires
        old(manager).wf(),
    ensures
        final(manager).wf(),
        reschedule(old(manager), final(manager), st, r),
        final(manager).allocator() == old(manager).allocator(),
        start_times_after(old(manager), final(manager), r, now_us),
{
    let ghost o = *old(manager);
    if st == TaskStatus::Exited {
        manager.mark_current_exited();
    } else if st == TaskStatus::Ready {
        manager.mark_current_suspended();
    } else {
        manager.mark_current(st);
    }
    let ghost after = o.statuses().update(o.current(), st);
    assert(manager.statuses() =~= after);
    let r = manager.run_next_task(now_us);
    match r {
        Dispatch::Switch { current, next } => {
            assert(manager.statuses() =~= after.update(next as int, TaskStatus::Running));
        },
        Dispatch::AllCompleted => {},
    }
    r
}

/// Suspends the current task (it becomes Ready) and dispatches the next one.
pub fn suspend_current_and_run_next(manager: &mut TaskManager, now_us: usize) -> (r: Dispatch)
    requires
        old(manager).wf(),
    ensures
        final(manager).wf(),
        reschedule(old(manager), final(manager), TaskStatus::Ready, r),
        final(manager).allocator() == old(manager).allocator(),
        start_times_after(old(manager), final(manager), r, now_us),
{
    mark_and_run_next(manager, TaskStatus::Ready, now_us)
}

/// Exits the current task (it becomes Exited) and dispatches the next one.
pub fn exit_current_and_run_next(manager: &mut TaskManager, now_us: usize) -> (r: Dispatch)
    requires
        old(manager).wf(),
    ensures
        final(manager).wf(),
        reschedule(old(manager), final(manager), TaskStatus::Exited, r),
        final(manager).allocator() == old(manager).allocator(),
        start_times_after(old(manager), final(manager), r, now_us),
{
    mark_and_run_next(manager, TaskStatus::Exited, now_us)
}

/// The address-space token of the running task.
pub fn current_user_token(manager: &TaskManager) -> (r: u64)
    requires
        manager.wf(),
    ensures
        r == manager.tasks()[manager.current()].memory_set.token_spec(),
{
    manager.get_current_token()
}

/// The physical page of the running task's trap context.
pub fn current_trap_cx(manager: &TaskManager) -> (r: PhysPageNum)
    requires
        manager.wf(),
    ensures
        r == manager.tasks()[manager.current()].trap_cx_ppn,
{
    manager.get_current_trap_cx()
}

/// Microseconds since the running task was first dispatched.
pub fn get_current_task_time(manager: &TaskManager, now_us: usize) -> (r: usize)
    requires
        manager.wf(),
    ensures
        r == (if now_us >= manager.tasks()[manager.current()].start_time {
            (now_us - manager.tasks()[manager.current()].start_time) as usize
        } else {
            0
        }),
{
    manager.get_start_time(now_us)
}

/// The running task's count of each syscall.
pub fn get_syscall_times(manager: &TaskManager) -> (r: Vec<u32>)
    requires
        manager.wf(),
    ensures
        r@ == manager.times(manager.current()),
{
    manager.get_syscall_times()
}

/// Counts one more call of syscall `id` by the running task.
pub fn update_syscall_times(manager: &mut TaskManager, id: usize)
    requires
        old(manager).wf(),
        id < MAX_SYSCALL_NUM,
    ensures
        final(manager).wf(),
        final(manager).current() == old(manager).current(),
        final(manager).times(old(manager).current()) == old(manager).times(old(manager).current()).update(
            id as int, old(manager).times(old(manager).current())[id as int].wrapping_add(1)),
        forall|j: int| 0 <= j < old(manager).tasks().len() && j != old(manager).current()
            ==> #[trigger] final(manager).tasks()[j] == old(manager).tasks()[j],
{
    manager.update_syscall_times(id)
}

/// `mmap` on the running task; see `TaskManager::mmap`.
pub fn mmap(manager: &mut TaskManager, start: usize, len: usize, port: usize) -> (r: isize)
    requires
        old(manager).wf(),
    ensures
        final(manager).wf(),
        r == 0 || r == -1,
        r == 0 <==> mmap_accepts(old(manager).space(old(manager).current()), start, len, port)
            && old(manager).allocator().available() >= frames_needed(start, len),
        r == 0 ==> framed(old(manager).space(old(manager).current()), final(manager).space(old(manager).current()),
            first_page(start), end_page(start, len), port_flags(port)),
        r == 0 ==> fresh_frames(final(manager).space(old(manager).current()), first_page(start),
            end_page(start, len), old(manager).allocator().free(), final(manager).allocator().free()),
        r == 0 ==> TaskManager::space_set(old(manager).tasks(), final(manager).tasks(), old(manager).current()),
        r == 0 ==> final(manager).current() == old(manager).current(),
        r == -1 ==> *final(manager) == *old(manager),
{
    manager.mmap(start, len, port)
}

/// `munmap` on the running task; see `TaskManager::munmap`.
pub fn munmap(manager: &mut TaskManager, start: usize, len: usize) -> (r: isize)
    requires
        old(manager).wf(),
    ensures
        final(manager).wf(),
        r == 0 || r == -1,
        r == 0 <==> munmap_accepts(old(manager).space(old(manager).current()), start, len),
        r == 0 ==> unframed(old(manager).space(old(manager).current()), final(manager).space(old(manager).current()),
            first_page(start), end_page(start, len)),
        r == 0 ==> final(manager).allocator().available() == old(manager).allocator().available()
            + (end_page(start, len) - first_page(start)),
        r == 0 ==> forall|v: usize| first_page(start) <= v < end_page(start, len) ==> final(manager).allocator().free().contains(
            #[trigger] old(manager).space(old(manager).current())[v].ppn_spec()),
        r == 0 ==> TaskManager::space_set(old(manager).tasks(), final(manager).tasks(), old(manager).current()),
        r == 0 ==> final(manager).current() == old(manager).current(),
        r == -1 ==> *final(manager) == *old(manager),
{
    manager.munmap(start, len)
}

proof fn lemma_scan_ready(st: Seq<TaskStatus>, cur: int, from: int)
    requires
        0 <= cur < st.len(),
        1 <= from,
    ensures
        scan_ready(st, cur, from) matches Some(i) ==> 0 <= i < st.len() && st[i] == TaskStatus::Ready,
        scan_ready(st, cur, from) is None ==> forall|d: int| from <= d <= st.len()
            ==> st[#[trigger] cyclic(cur, d, st.len() as int)] != TaskStatus::Ready,
    decreases st.len() + 1 - from,
{
    if from <= st.len() {
        lemma_scan_ready(st, cur, from + 1);
    }
}

/// Round robin picks only Ready tasks, and picks none exactly when no task
/// is Ready.
pub proof fn lemma_next_ready_sound(st: Seq<TaskStatus>, cur: int)
    requires
        0 <= cur < st.len(),
    ensures
        next_ready(st, cur) matches Some(i) ==> 0 <= i < st.len() && st[i] == TaskStatus::Ready,
        next_ready(st, cur) is None <==> forall|i: int| 0 <= i < st.len() ==> st[i] != TaskStatus::Ready,
{
    lemma_scan_ready(st, cur, 1);
    if next_ready(st, cur) is None {
        assert forall|i: int| 0 <= i < st.len() implies st[i] != TaskStatus::Ready by {
            let n = st.len() as int;
            let d = if i > cur { i - cur } else { i - cur + n };
            assert(cyclic(cur, d, n) == i);
        }
    }
}

/// With every task but the running one Ready, suspending the running task
/// dispatches the next index cyclically, and every task but that one is
/// Ready again.
pub proof fn lemma_round_robin(st: Seq<TaskStatus>, cur: int)
    requires
        0 <= cur < st.len(),
        st[cur] == TaskStatus::Running,
        forall|i: int| 0 <= i < st.len() && i != cur ==> st[i] == TaskStatus::Ready,
    ensures
        next_ready(st.update(cur, TaskStatus::Ready), cur) == Some((cur + 1) % (st.len() as int)),
        ({
            let next = (cur + 1) % (st.len() as int);
            let st2 = st.update(cur, TaskStatus::Ready).update(next, TaskStatus::Running);
            &&& st2[next] == TaskStatus::Running
            &&& forall|i: int| 0 <= i < st2.len() && i != next ==> st2[i] == TaskStatus::Ready
        }),
{
    let n = st.len() as int;
    let after = st.update(cur, TaskStatus::Ready);
    if cur + 1 < n {
        vstd::arithmetic::div_mod::lemma_small_mod((cur + 1) as nat, n as nat);
    } else {
        vstd::arithmetic::div_mod::lemma_mod_self_0(n);
    }
    assert(cyclic(cur, 1, n) == (cur + 1) % n);
    assert(after[cyclic(cur, 1, n)] == TaskStatus::Ready);
}

/// `mmap` of a region and then `munmap` of the same region: the second is
/// accepted, and the address space is as it was before the first, with no page
/// of the region mapped.
pub proof fn lemma_mmap_munmap_round_trip(
    before: Map<usize, PageTableEntry>,
    mapped: Map<usize, PageTableEntry>,
    after: Map<usize, PageTableEntry>,
    start: usize,
    len: usize,
    port: usize,
)
    requires
        mmap_accepts(before, start, len, port),
        framed(before, mapped, first_page(start), end_page(start, len), port_flags(port)),
        unframed(mapped, after, first_page(start), end_page(start, len)),
    ensures
        munmap_accepts(mapped, start, len),
        after == before,
        region_free(after, start, len),
{
    assert(after =~= before);
}

/// Once a region is mapped, `mmap` of any region that shares a page with it
/// is refused.
pub proof fn lemma_mmap_overlap_refused(
    before: Map<usize, PageTableEntry>,
    mapped: Map<usize, PageTableEntry>,
    start: usize,
    len: usize,
    port: usize,
    start2: usize,
    len2: usize,
    port2: usize,
    shared: usize,
)
    requires
        framed(before, mapped, first_page(start), end_page(start, len), port_flags(port)),
        first_page(start) <= shared < end_page(start, len),
        first_page(start2) <= shared < end_page(start2, len2),
    ensures
        !mmap_accepts(mapped, start2, len2, port2),
{
    assert(mapped.contains_key(shared));
}

/// The counts `t` after `k` calls of syscall `id`.
pub open spec fn counted(t: Seq<u32>, id: int, k: nat) -> Seq<u32>
    decreases k,
{
    if k == 0 {
        t
    } else {
        let p = counted(t, id, (k - 1) as nat);
        p.update(id, p[id].wrapping_add(1))
    }
}

/// `k` calls of `update_syscall_times(id)` raise the count of `id` by `k`
/// (modulo 2^32) and leave every other count as it was.
pub proof fn lemma_counted(t: Seq<u32>, id: int, k: nat)
    requires
        0 <= id < t.len(),
    ensures
        counted(t, id, k).len() == t.len(),
        counted(t, id, k)[id] == (t[id] + k) % 0x1_0000_0000,
        forall|j: int| 0 <= j < t.len() && j != id ==> #[trigger] counted(t, id, k)[j] == t[j],
    decreases k,
{
    if k == 0 {
        vstd::arithmetic::div_mod::lemma_small_mod(t[id] as nat, 0x1_0000_0000);
    } else {
        lemma_counted(t, id, (k - 1) as nat);
        let p = counted(t, id, (k - 1) as nat);
        let x = t[id] + k - 1;
        vstd::arithmetic::div_mod::lemma_add_mod_noop(x, 1, 0x1_0000_0000);
        vstd::arithmetic::div_mod::lemma_small_mod(1, 0x1_0000_0000);
        vstd::arithmetic::div_mod::lemma_mod_twice(x, 0x1_0000_0000);
        vstd::arithmetic::div_mod::lemma_small_mod(p[id] as nat, 0x1_0000_0000);
    }
}

} // verus!
