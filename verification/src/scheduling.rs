//! Task scheduling with a single global work queue shared across all CPUs.
//! Each CPU has its own CPUScheduler for per-core state (current task, tick
//! counting), while all runnable tasks wait in one queue.
use vstd::prelude::*;
use std::collections::VecDeque;
use crate::id::TaskID;
use crate::address::VirtualAddress;
use crate::map::TaskMap;
use crate::state::{Task, RunState};

verus! {

/// The value of `pending_reenqueue` that means no task is pending
pub const NO_PENDING_TASK: u32 = 0xFFFFFFFF;

/// Per-core scheduling state
pub struct CPUScheduler {
    pub linear_address: VirtualAddress,
    pub cpu_index: usize,
    pub current_task: TaskID,
    pub idle_task: TaskID,
    pub has_lapic: bool,
    /// Timer ticks counted in the current time slice
    pub current_ticks: u8,
    /// Task to re-enqueue once a context switch completes, or
    /// `NO_PENDING_TASK`
    pub pending_reenqueue: u32,
    /// Kernel stack pointer loaded by the CPU on entry from user mode
    pub tss_esp0: u32,
    pub user_ticks: u32,
    pub kernel_ticks: u32,
    pub idle_ticks: u32,
}

pub open spec fn wrapping_inc(x: u32) -> u32 {
    if x == u32::MAX {
        0
    } else {
        (x + 1) as u32
    }
}

impl CPUScheduler {
    pub fn new(cpu_index: usize, idle_task: TaskID, linear_address: VirtualAddress) -> (r: Self)
        ensures
            r.linear_address == linear_address,
            r.cpu_index == cpu_index,
            r.current_task == idle_task,
            r.idle_task == idle_task,
            !r.has_lapic,
            r.current_ticks == 0,
            r.pending_reenqueue == NO_PENDING_TASK,
            r.tss_esp0 == 0,
            r.user_ticks == 0 && r.kernel_ticks == 0 && r.idle_ticks == 0,
    {
        CPUScheduler {
            linear_address,
            cpu_index,
            current_task: idle_task,
            idle_task,
            has_lapic: false,
            current_ticks: 0,
            pending_reenqueue: NO_PENDING_TASK,
            tss_esp0: 0,
            user_ticks: 0,
            kernel_ticks: 0,
            idle_ticks: 0,
        }
    }

    pub fn set_tss_stack_pointer(&mut self, sp: u32)
        ensures
            *final(self) == (CPUScheduler { tss_esp0: sp, ..*old(self) }),
    {
        self.tss_esp0 = sp;
    }

    pub fn get_current_task(&self) -> (r: TaskID)
        ensures
            r == self.current_task,
    {
        self.current_task
    }

    pub fn get_idle_task(&self) -> (r: TaskID)
        ensures
            r == self.idle_task,
    {
        self.idle_task
    }

    /// Make `id` the current task, returning the previous one
    pub fn set_current_task(&mut self, id: TaskID) -> (r: TaskID)
        ensures
            r == old(self).current_task,
            *final(self) == (CPUScheduler { current_task: id, ..*old(self) }),
    {
        let previous = self.current_task;
        self.current_task = id;
        previous
    }

    /// Record one tick of CPU time in the appropriate bucket: user time, idle
    /// time when the idle task is current, kernel time otherwise.
    pub fn record_tick(&mut self, is_user: bool)
        ensures
            is_user ==> *final(self) == (CPUScheduler { user_ticks: wrapping_inc(old(self).user_ticks), ..*old(self) }),
            !is_user && old(self).current_task == old(self).idle_task ==> *final(self) == (CPUScheduler {
                idle_ticks: wrapping_inc(old(self).idle_ticks),
                ..*old(self)
            }),
            !is_user && old(self).current_task != old(self).idle_task ==> *final(self) == (CPUScheduler {
                kernel_ticks: wrapping_inc(old(self).kernel_ticks),
                ..*old(self)
            }),
    {
        let is_idle = self.get_current_task() == self.idle_task;
        if is_user {
            self.user_ticks = if self.user_ticks == u32::MAX { 0 } else { self.user_ticks + 1 };
        } else if is_idle {
            self.idle_ticks = if self.idle_ticks == u32::MAX { 0 } else { self.idle_ticks + 1 };
        } else {
            self.kernel_ticks = if self.kernel_ticks == u32::MAX { 0 } else { self.kernel_ticks + 1 };
        }
    }

    pub fn get_cpu_index(&self) -> (r: usize)
        ensures
            r == self.cpu_index,
    {
        self.cpu_index
    }

    /// The user, kernel and idle tick counts
    pub fn get_tick_counts(&self) -> (r: (u32, u32, u32))
        ensures
            r == (self.user_ticks, self.kernel_ticks, self.idle_ticks),
    {
        (self.user_ticks, self.kernel_ticks, self.idle_ticks)
    }

    /// Called every timer tick. Returns true when the current task's time
    /// slice of two ticks has expired, and starts a new slice.
    pub fn tick(&mut self) -> (r: bool)
        ensures
            (r, final(self).current_ticks) == tick_step(old(self).current_ticks),
            r == (old(self).current_ticks >= 1),
            *final(self) == (CPUScheduler {
                current_ticks: if r { 0 } else { (old(self).current_ticks + 1) as u8 },
                ..*old(self)
            }),
    {
        let prev = self.current_ticks;
        self.current_ticks = if prev == u8::MAX { 0 } else { prev + 1 };
        if prev >= 1 {
            self.current_ticks = 0;
            return true;
        }
        false
    }
}

/// The ID of the task running on a core
pub fn get_current_task_id(scheduler: &CPUScheduler) -> (r: TaskID)
    ensures
        r == scheduler.current_task,
{
    scheduler.get_current_task()
}

pub struct Tasklet {}

pub enum WorkItem {
    Task(TaskID),
    Tasklet(Tasklet),
}

/// The queue of runnable tasks, shared by all cores
pub struct WorkQueue {
    items: VecDeque<WorkItem>,
}

/// What a queued item stands for: `Some` of the task it names, `None` for a
/// tasklet
pub open spec fn item_task(w: WorkItem) -> Option<TaskID> {
    match w {
        WorkItem::Task(id) => Some(id),
        WorkItem::Tasklet(_) => None,
    }
}

/// Whether the scheduler may run a task that the map holds under `id`
pub open spec fn resumable(tasks: Map<TaskID, Task>, id: TaskID) -> bool {
    tasks.contains_key(id) && (tasks[id].state matches RunState::Running || tasks[id].state matches RunState::Resuming(_))
}

/// The number of queued items that `switch` pops: every item up to and
/// including the first resumable task, or the whole queue when there is none
pub open spec fn items_popped(q: Seq<Option<TaskID>>, tasks: Map<TaskID, Task>) -> int
    decreases q.len(),
{
    if q.len() == 0 {
        0
    } else if q[0] matches Some(id) && resumable(tasks, id) {
        1
    } else {
        1 + items_popped(q.drop_first(), tasks)
    }
}

/// The task `switch` picks from the queue: the first resumable one, or the
/// idle task when there is none
pub open spec fn next_from_queue(q: Seq<Option<TaskID>>, tasks: Map<TaskID, Task>, idle: TaskID) -> TaskID
    decreases q.len(),
{
    if q.len() == 0 {
        idle
    } else {
        match q[0] {
            Some(id) => if resumable(tasks, id) {
                id
            } else {
                next_from_queue(q.drop_first(), tasks, idle)
            },
            None => next_from_queue(q.drop_first(), tasks, idle),
        }
    }
}

impl WorkQueue {
    /// The queued work, in order: a task's ID, or `None` for a tasklet
    pub closed spec fn items(&self) -> Seq<Option<TaskID>> {
        self.items@.map_values(|w: WorkItem| item_task(w))
    }

    pub fn new() -> (r: Self)
        ensures
            r.items() == Seq::<Option<TaskID>>::empty(),
    {
        let r = WorkQueue { items: VecDeque::new() };
        assert(r.items() =~= Seq::<Option<TaskID>>::empty());
        r
    }

    /// Put a task on the work queue, making it eligible for execution again
    pub fn reenqueue_task(&mut self, id: TaskID)
        ensures
            final(self).items() == old(self).items().push(Some(id)),
    {
        self.items.push_back(WorkItem::Task(id));
        assert(self.items() =~= old(self).items().push(Some(id)));
    }
}

/// Pick the next task to run on this core. A task left pending by an earlier
/// switch is re-enqueued first. Items are popped until one names a task that
/// can resume; with none, the idle task is picked. Returns the task to switch
/// to, or `None` when that is the current task. The outgoing task, if it can
/// resume and is not the idle task, is recorded as pending: it goes back on
/// the queue only after the switch completes (see `complete_switch`).
pub fn switch(scheduler: &mut CPUScheduler, queue: &mut WorkQueue, tasks: &TaskMap) -> (r: Option<TaskID>)
    requires
        tasks.wf(),
        forall|i: int| 0 <= i < old(queue).items().len() ==> (#[trigger] old(queue).items()[i]) is Some,
    ensures
        ({
            let q0 = if old(scheduler).pending_reenqueue != NO_PENDING_TASK {
                old(queue).items().push(Some(TaskID(old(scheduler).pending_reenqueue)))
            } else {
                old(queue).items()
            };
            let current = old(scheduler).current_task;
            let next = next_from_queue(q0, tasks@, old(scheduler).idle_task);
            let should_reenqueue = current != old(scheduler).idle_task && resumable(tasks@, current);
            &&& final(queue).items() == q0.skip(items_popped(q0, tasks@))
            &&& r == (if next == current { None } else { Some(next) })
            &&& final(scheduler).pending_reenqueue == (if next != current && should_reenqueue {
                current.0
            } else {
                NO_PENDING_TASK
            })
            &&& final(scheduler).current_task == old(scheduler).current_task
            &&& final(scheduler).idle_task == old(scheduler).idle_task
        }),
{
    let stale = scheduler.pending_reenqueue;
    scheduler.pending_reenqueue = NO_PENDING_TASK;
    if stale != NO_PENDING_TASK {
        queue.reenqueue_task(TaskID::new(stale));
    }
    let ghost q0 = queue.items();
    let current_id = scheduler.current_task;
    let should_reenqueue = if current_id != scheduler.idle_task {
        match tasks.get_task(current_id) {
            Some(t) => t.can_resume(),
            None => false,
        }
    } else {
        false
    };

    let ghost mut popped: int = 0;
    let mut switch_to_id = scheduler.idle_task;
    assert(q0.skip(0) =~= q0);
    loop
        invariant_except_break
            0 <= popped <= q0.len(),
            queue.items() == q0.skip(popped),
            items_popped(q0, tasks@) == popped + items_popped(q0.skip(popped), tasks@),
            next_from_queue(q0, tasks@, scheduler.idle_task) == next_from_queue(q0.skip(popped), tasks@, scheduler.idle_task),
            switch_to_id == scheduler.idle_task,
        invariant
            tasks.wf(),
            forall|i: int| 0 <= i < q0.len() ==> (#[trigger] q0[i]) is Some,
        ensures
            queue.items() == q0.skip(items_popped(q0, tasks@)),
            switch_to_id == next_from_queue(q0, tasks@, scheduler.idle_task),
        decreases q0.len() - popped,
    {
        let ghost before = queue.items();
        let item = queue.items.pop_front();
        proof {
            if before.len() > 0 {
                assert(queue.items() =~= before.drop_first());
                assert(before.drop_first() =~= q0.skip(popped + 1));
                assert(before[0] == q0[popped]);
            }
        }
        match item {
            Some(WorkItem::Task(id)) => {
                let resumes = match tasks.get_task(id) {
                    Some(t) => t.can_resume(),
                    None => false,
                };
                if resumes {
                    assert(q0.skip(popped + 1) =~= q0.skip(popped + items_popped(q0.skip(popped), tasks@)));
                    switch_to_id = id;
                    break;
                }
                proof {
                    assert(q0.skip(popped).drop_first() =~= q0.skip(popped + 1));
                    popped = popped + 1;
                }
            },
            Some(WorkItem::Tasklet(_)) => {
                proof {
                    assert(q0[popped] is Some);
                }
                break;
            },
            None => {
                assert(q0.skip(popped).len() == 0);
                break;
            },
        }
    }

    if current_id == switch_to_id {
        return None;
    }
    if should_reenqueue {
        scheduler.pending_reenqueue = current_id.0;
    }
    Some(switch_to_id)
}

/// After the context switch has saved the outgoing task, put the pending task
/// back on the queue so that another core may run it.
pub fn complete_switch(scheduler: &mut CPUScheduler, queue: &mut WorkQueue)
    ensures
        final(queue).items() == (if old(scheduler).pending_reenqueue != NO_PENDING_TASK {
            old(queue).items().push(Some(TaskID(old(scheduler).pending_reenqueue)))
        } else {
            old(queue).items()
        }),
        *final(scheduler) == (CPUScheduler { pending_reenqueue: NO_PENDING_TASK, ..*old(scheduler) }),
{
    let prev = scheduler.pending_reenqueue;
    scheduler.pending_reenqueue = NO_PENDING_TASK;
    if prev != NO_PENDING_TASK {
        queue.reenqueue_task(TaskID::new(prev));
    }
}

/// Whether a queued item names a task that can resume
pub open spec fn runnable_item(tasks: Map<TaskID, Task>, item: Option<TaskID>) -> bool {
    item matches Some(id) && resumable(tasks, id)
}

/// The queue after `switch` and then `complete_switch`, on a core with no task pending: the
/// items up to the picked task are gone, and the outgoing task, when it can resume, is not
/// the idle task and is not picked again, goes to the back.
pub open spec fn queue_after_switch(q: Seq<Option<TaskID>>, tasks: Map<TaskID, Task>, current: TaskID, idle: TaskID) -> Seq<Option<TaskID>> {
    let next = next_from_queue(q, tasks, idle);
    let rest = q.skip(items_popped(q, tasks));
    if next != current && current != idle && resumable(tasks, current) {
        rest.push(Some(current))
    } else {
        rest
    }
}

proof fn lemma_pick(q: Seq<Option<TaskID>>, tasks: Map<TaskID, Task>, idle: TaskID)
    ensures
        0 <= items_popped(q, tasks) <= q.len(),
        (exists|i: int| 0 <= i < q.len() && runnable_item(tasks, #[trigger] q[i])) ==> {
            let k = items_popped(q, tasks);
            &&& k >= 1
            &&& q[k - 1] == Some(next_from_queue(q, tasks, idle))
            &&& resumable(tasks, next_from_queue(q, tasks, idle))
            &&& forall|j: int| 0 <= j < k - 1 ==> !runnable_item(tasks, #[trigger] q[j])
        },
        !(exists|i: int| 0 <= i < q.len() && runnable_item(tasks, #[trigger] q[i])) ==> next_from_queue(q, tasks, idle) == idle
            && items_popped(q, tasks) == q.len(),
    decreases q.len(),
{
    if q.len() > 0 {
        let t = q.drop_first();
        lemma_pick(t, tasks, idle);
        if runnable_item(tasks, q[0]) {
        } else {
            if exists|i: int| 0 <= i < q.len() && runnable_item(tasks, #[trigger] q[i]) {
                let i = choose|i: int| 0 <= i < q.len() && runnable_item(tasks, #[trigger] q[i]);
                assert(t[i - 1] == q[i]);
                let k = items_popped(t, tasks);
                assert forall|j: int| 0 <= j < k implies !runnable_item(tasks, #[trigger] q[j]) by {
                    if j > 0 {
                        assert(q[j] == t[j - 1]);
                    }
                }
                assert(q[k] == t[k - 1]);
            } else {
                assert forall|i: int| 0 <= i < t.len() implies !runnable_item(tasks, #[trigger] t[i]) by {
                    assert(t[i] == q[i + 1]);
                }
            }
        }
    }
}

/// The scheduler runs the first queued task that can resume, skipping (and dropping) the items
/// before it, or the idle task when no queued task can resume; after the switch completes,
/// the task it left goes to the back of the queue, behind every task still waiting.
pub proof fn law_pick_then_requeue(q: Seq<Option<TaskID>>, tasks: Map<TaskID, Task>, current: TaskID, idle: TaskID)
    ensures
        (exists|i: int| 0 <= i < q.len() && runnable_item(tasks, #[trigger] q[i])) ==> {
            let k = items_popped(q, tasks);
            &&& q[k - 1] == Some(next_from_queue(q, tasks, idle))
            &&& resumable(tasks, next_from_queue(q, tasks, idle))
            &&& forall|j: int| 0 <= j < k - 1 ==> !runnable_item(tasks, #[trigger] q[j])
        },
        !(exists|i: int| 0 <= i < q.len() && runnable_item(tasks, #[trigger] q[i])) ==> next_from_queue(q, tasks, idle) == idle,
        next_from_queue(q, tasks, idle) != current && current != idle && resumable(tasks, current) ==> {
            &&& queue_after_switch(q, tasks, current, idle).last() == Some(current)
            &&& queue_after_switch(q, tasks, current, idle).drop_last() == q.skip(items_popped(q, tasks))
        },
{
    lemma_pick(q, tasks, idle);
    let rest = q.skip(items_popped(q, tasks));
    assert(rest.push(Some(current)).drop_last() =~= rest);
}

/// The slice count after `n` ticks from zero, as `CPUScheduler::new` leaves it
pub open spec fn count_after_ticks(n: nat) -> u8
    decreases n,
{
    if n == 0 {
        0u8
    } else {
        tick_step(count_after_ticks((n - 1) as nat)).1
    }
}

/// After `CPUScheduler::new`, time slices alternate: after `n` ticks the count is `n % 2`, and
/// the next tick ends the slice exactly when `n` is odd, so every second tick ends one.
pub proof fn law_tick_alternates(n: nat)
    ensures
        count_after_ticks(n) == n % 2,
        tick_step(count_after_ticks(n)).0 == (n % 2 == 1),
    decreases n,
{
    if n > 0 {
        law_tick_alternates((n - 1) as nat);
    }
}

/// One timer tick on a count of `c`: whether the slice ends, and the new count
pub open spec fn tick_step(c: u8) -> (bool, u8) {
    if c >= 1 {
        (true, 0u8)
    } else {
        (false, (c + 1) as u8)
    }
}

/// The CPU index and the user, kernel and idle tick counts of every CPU's scheduler, in the
/// order the schedulers were created.
pub fn get_all_cpu_ticks(schedulers: &Vec<CPUScheduler>) -> (r: Vec<(usize, u32, u32, u32)>)
    ensures
        r@.len() == schedulers@.len(),
        forall|i: int| 0 <= i < r@.len() ==> #[trigger] r@[i] == (
            schedulers@[i].cpu_index,
            schedulers@[i].user_ticks,
            schedulers@[i].kernel_ticks,
            schedulers@[i].idle_ticks,
        ),
{
    let mut out: Vec<(usize, u32, u32, u32)> = Vec::new();
    let mut i: usize = 0;
    while i < schedulers.len()
        invariant
            i <= schedulers@.len(),
            out@.len() == i,
            forall|j: int| 0 <= j < i ==> #[trigger] out@[j] == (
                schedulers@[j].cpu_index,
                schedulers@[j].user_ticks,
                schedulers@[j].kernel_ticks,
                schedulers@[j].idle_ticks,
            ),
        decreases schedulers@.len() - i,
    {
        let s = &schedulers[i];
        let (u, k, idle) = s.get_tick_counts();
        out.push((s.get_cpu_index(), u, k, idle));
        i = i + 1;
    }
    out
}

} // verus!
