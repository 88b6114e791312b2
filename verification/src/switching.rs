//! Which task is current, the bookkeeping of switching between tasks, the
//! passage of time for blocked tasks, and the cleanup of terminated tasks.
use vstd::prelude::*;
use crate::id::TaskID;
use crate::address::PhysicalAddress;
use crate::map::TaskMap;
use crate::scheduling::{CPUScheduler, WorkQueue};
use crate::stack::{StackAllocator, STACK_SIZE_IN_BYTES, stack_base};
use crate::state::{Task, RunState, timeout_state};
use crate::paging::{PhysicalMemory, is_directory, dir_ok, entry_present, entry_address};
use crate::frames::{FrameTracker, FilePageTracker};
use crate::memory::{MemMappedRegion, unmap_outcome, unmap_regions, unmap_offsets_ok};
use crate::address::round_up;
use crate::actions::{PageState, state_of, unmap_sections, sections_in_range, unmap_memory_for_task};

verus! {

/// The switching state shared by the whole kernel: the ID of the current
/// task, and the time-stamp counter at the last switch and the time between
/// the last two switches, whose variations feed the entropy pool
pub struct SwitchState {
    pub current_id: TaskID,
    pub last_switch: u32,
    pub last_switch_delta: u32,
}

/// Create the initial task, running on the initial kernel stack with the
/// page directory the kernel started with, and make it current
pub fn init(tasks: &mut TaskMap, stacks: &mut StackAllocator, page_directory: PhysicalAddress, tsc: u32) -> (r: SwitchState)
    requires
        old(tasks).wf(),
        STACK_SIZE_IN_BYTES <= old(stacks).top(),
    ensures
        final(tasks).wf(),
        final(tasks).next_id() == old(tasks).next_id(),
        final(tasks)@ == old(tasks)@.insert(TaskID(0), final(tasks)@[TaskID(0)]),
        final(tasks)@[TaskID(0)].id == TaskID(0),
        final(tasks)@[TaskID(0)].parent_id == TaskID(0),
        final(tasks)@[TaskID(0)].state == RunState::Running,
        final(tasks)@[TaskID(0)].page_directory == page_directory,
        final(tasks)@[TaskID(0)].kernel_stack matches Some(s) && s.base == stack_base(old(stacks).top() as int, 0),
        final(stacks).bitmap() == old(stacks).bitmap().push(1),
        r == (SwitchState { current_id: TaskID(0), last_switch: tsc, last_switch_delta: 0 }),
{
    let mut idle_task = Task::create_initial_task(stacks);
    idle_task.page_directory = page_directory;
    tasks.insert_task(idle_task);
    proof {
        assert(tasks@ =~= old(tasks)@.insert(TaskID(0), tasks@[TaskID(0)]));
    }
    SwitchState { current_id: TaskID::new(0), last_switch: tsc, last_switch_delta: 0 }
}

pub fn get_current_id(state: &SwitchState) -> (r: TaskID)
    ensures
        r == state.current_id,
{
    state.current_id
}

/// The entropy that a switch at time-stamp `tsc` yields: how much the time
/// since the last switch differs from the time between the two before
pub open spec fn switch_jitter(state: SwitchState, tsc: u32) -> u32 {
    (((tsc - state.last_switch) % 0x1_0000_0000 - state.last_switch_delta) % 0x1_0000_0000) as u32
}

/// Record a switch to the task `id` at time-stamp `tsc`: it becomes current,
/// and the jitter of the switch timing is returned for the entropy pool.
/// Saving and restoring registers, and changing stacks and page
/// directories, is left to the caller.
pub fn record_switch(state: &mut SwitchState, id: TaskID, tsc: u32) -> (r: u32)
    ensures
        r == switch_jitter(*old(state), tsc),
        *final(state) == (SwitchState {
            current_id: id,
            last_switch: tsc,
            last_switch_delta: ((tsc - old(state).last_switch) % 0x1_0000_0000) as u32,
        }),
{
    let switch_delta = tsc.wrapping_sub(state.last_switch);
    let jitter = switch_delta.wrapping_sub(state.last_switch_delta);
    state.last_switch = tsc;
    state.last_switch_delta = switch_delta;
    state.current_id = id;
    jitter
}

/// The top of a task's kernel stack: where the CPU starts the stack when the
/// task enters the kernel from user mode
pub open spec fn stack_top(t: Task) -> int {
    t.kernel_stack->0.base + t.kernel_stack->0.bytes@.len()
}

/// Switch to the task `id` at time-stamp `tsc`: the task must exist (the
/// kernel panics on a switch to a task that does not). It becomes current,
/// the CPU's ring-0 stack pointer is set to the top of its kernel stack, and
/// the jitter of the switch timing is returned for the entropy pool. No task
/// changes state. Saving and restoring registers and the FPU, and changing
/// stacks and page directories, is left to the caller.
pub fn switch_to(
    state: &mut SwitchState,
    scheduler: &mut CPUScheduler,
    tasks: &TaskMap,
    id: TaskID,
    tsc: u32,
) -> (r: u32)
    requires
        tasks.wf(),
        tasks@.contains_key(id),
        tasks@[id].kernel_stack is Some,
        stack_top(tasks@[id]) <= usize::MAX,
    ensures
        r == switch_jitter(*old(state), tsc),
        *final(state) == (SwitchState {
            current_id: id,
            last_switch: tsc,
            last_switch_delta: ((tsc - old(state).last_switch) % 0x1_0000_0000) as u32,
        }),
        *final(scheduler) == (CPUScheduler { tss_esp0: stack_top(tasks@[id]) as u32, ..*old(scheduler) }),
{
    let next = tasks.get_task(id).unwrap();
    let top = match &next.kernel_stack {
        Some(stack) => stack.base + stack.bytes.len(),
        None => 0,
    };
    scheduler.set_tss_stack_pointer(top as u32);
    record_switch(state, id, tsc)
}

/// Whether a task's timeout runs out within `ms` milliseconds, so that it
/// resumes
pub open spec fn resumes_after(state: RunState, ms: u32) -> bool {
    state matches RunState::Blocked(Some(t), _) && t <= ms
}

/// Every task after `ms` milliseconds pass
pub open spec fn timed_out(tasks: Map<TaskID, Task>, ms: u32) -> Map<TaskID, Task> {
    tasks.map_values(|t: Task| Task { state: timeout_state(t.state, ms), ..t })
}

/// The queue entries for the tasks among `ids` that resume, in order
pub open spec fn resumed_entries(ids: Seq<TaskID>, tasks: Map<TaskID, Task>, ms: u32) -> Seq<Option<TaskID>>
    decreases ids.len(),
{
    if ids.len() == 0 {
        Seq::empty()
    } else {
        let rest = resumed_entries(ids.drop_last(), tasks, ms);
        if resumes_after(tasks[ids.last()].state, ms) {
            rest.push(Some(ids.last()))
        } else {
            rest
        }
    }
}

/// Whether `ids` lists the keys of a map in ascending order
pub open spec fn ascending_keys(ids: Seq<TaskID>, tasks: Map<TaskID, Task>) -> bool {
    &&& forall|i: int, j: int| 0 <= i < j < ids.len() ==> (#[trigger] ids[i]).0 < (#[trigger] ids[j]).0
    &&& forall|id: TaskID| tasks.contains_key(id) <==> ids.contains(id)
}

/// Let `ms` milliseconds pass for every task. A blocked task whose timeout
/// runs out becomes runnable, and is put back on the work queue, in
/// ascending order of ID.
pub fn update_timeouts(tasks: &mut TaskMap, queue: &mut WorkQueue, ms: u32)
    requires
        old(tasks).wf(),
    ensures
        final(tasks).wf(),
        final(tasks).next_id() == old(tasks).next_id(),
        final(tasks)@ == timed_out(old(tasks)@, ms),
        exists|ids: Seq<TaskID>|
            #![trigger resumed_entries(ids, old(tasks)@, ms)]
            ascending_keys(ids, old(tasks)@) && final(queue).items() == old(queue).items() + resumed_entries(ids, old(tasks)@, ms),
{
    let ids = tasks.for_each_task_id();
    proof { tasks.lemma_keys_are_ids(); }
    let ghost start = tasks@;
    let mut i: usize = 0;
    while i < ids.len()
        invariant
            tasks.wf(),
            tasks.next_id() == old(tasks).next_id(),
            start == old(tasks)@,
            i <= ids@.len(),
            ascending_keys(ids@, start),
            forall|id: TaskID| #[trigger] start.contains_key(id) ==> start[id].id == id,
            tasks@.dom() == start.dom(),
            forall|id: TaskID| #[trigger] tasks@.contains_key(id) ==> tasks@[id] == if ids@.take(i as int).contains(id) {
                Task { state: timeout_state(start[id].state, ms), ..start[id] }
            } else {
                start[id]
            },
            queue.items() == old(queue).items() + resumed_entries(ids@.take(i as int), start, ms),
        decreases ids@.len() - i,
    {
        let id = ids[i];
        proof {
            assert(ids@.contains(id));
            assert(!ids@.take(i as int).contains(id)) by {
                if ids@.take(i as int).contains(id) {
                    let a = choose|a: int| 0 <= a < ids@.take(i as int).len() && #[trigger] ids@.take(i as int)[a] == id;
                    assert(ids@[a].0 < ids@[i as int].0);
                }
            }
            assert(ids@.take(i + 1) =~= ids@.take(i as int).push(id));
            assert(ids@.take(i + 1).drop_last() =~= ids@.take(i as int));
        }
        let mut task = tasks.take_task(id).unwrap();
        let resumed = match task.state {
            RunState::Blocked(Some(t), _) => t <= ms,
            _ => false,
        };
        task.update_timeout(ms);
        tasks.insert_task(task);
        if resumed {
            queue.reenqueue_task(id);
        }
        proof {
            assert forall|x: TaskID| #[trigger] tasks@.contains_key(x) implies tasks@[x] == if ids@.take(i + 1).contains(x) {
                Task { state: timeout_state(start[x].state, ms), ..start[x] }
            } else {
                start[x]
            } by {
                if x != id {
                    assert(ids@.take(i + 1).contains(x) == ids@.take(i as int).contains(x));
                }
            }
        }
        i = i + 1;
    }
    proof {
        assert(ids@.take(ids@.len() as int) =~= ids@);
        assert(tasks@ =~= timed_out(old(tasks)@, ms));
    }
}

/// The frames that hold the page tables of the first `n` directory entries
/// that are present, in order
pub open spec fn user_tables(d: Seq<u32>, n: nat) -> Seq<u32>
    decreases n,
{
    if n == 0 {
        Seq::empty()
    } else {
        let rest = user_tables(d, (n - 1) as nat);
        if entry_present(d[n - 1]) {
            rest.push(entry_address(d[n - 1]))
        } else {
            rest
        }
    }
}

/// The frames that a task's paging structures occupy: the tables of its
/// user-space entries, then the directory itself
pub open spec fn table_frames(d: Seq<u32>, dir: u32) -> Seq<u32> {
    user_tables(d, 768).push(dir)
}

/// The frames of the page tables and directory of a terminated task, to be
/// released once its user-space pages have been unmapped
fn free_task_page_tables(tasks: &TaskMap, mem: &PhysicalMemory, id: TaskID) -> (r: Vec<PhysicalAddress>)
    requires
        tasks.wf(),
        mem.wf(),
        tasks@.contains_key(id) ==> dir_ok(mem@, tasks@[id].page_directory.0),
    ensures
        !tasks@.contains_key(id) ==> r@.len() == 0,
        tasks@.contains_key(id) ==> r@.map_values(|p: PhysicalAddress| p.0) == table_frames(
            mem@[tasks@[id].page_directory.0],
            tasks@[id].page_directory.0,
        ),
{
    let mut released: Vec<PhysicalAddress> = Vec::new();
    let dir = match tasks.get_task(id) {
        Some(t) => t.page_directory,
        None => return released,
    };
    let ghost d = mem@[dir.0];
    let mut i: usize = 0;
    while i < 768
        invariant
            mem.wf(),
            dir_ok(mem@, dir.0),
            d == mem@[dir.0],
            i <= 768,
            released@.map_values(|p: PhysicalAddress| p.0) == user_tables(d, i as nat),
        decreases 768 - i,
    {
        let entry = mem.read_entry(dir.0, i);
        if entry & 1 == 1 {
            released.push(PhysicalAddress::new(entry & 0xfffff000));
            assert(released@.map_values(|p: PhysicalAddress| p.0) =~= user_tables(d, i as nat).push(entry_address(d[i as int])));
        }
        i = i + 1;
    }
    released.push(dir);
    assert(released@.map_values(|p: PhysicalAddress| p.0) =~= table_frames(d, dir.0));
    released
}

/// The memory map and paging state after a terminated task's regions are
/// unmapped one after the other, each rounded up to whole pages; a region
/// that cannot be unmapped is skipped
pub open spec fn cleanup_unmap(
    s: Seq<MemMappedRegion>,
    st: PageState,
    dir: u32,
    regions: Seq<MemMappedRegion>,
) -> (Seq<MemMappedRegion>, PageState)
    decreases regions.len(),
{
    if regions.len() == 0 {
        (s, st)
    } else {
        let prev = cleanup_unmap(s, st, dir, regions.drop_last());
        let r = regions.last();
        let size = round_up(r.size as int) as u32;
        match unmap_outcome(prev.0, 0xc0000000, r.address, size) {
            Err(_) => prev,
            Ok(sections) => (
                unmap_regions(prev.0, r.address.0 as int, r.address.0 + size),
                unmap_sections(prev.1, dir, sections),
            ),
        }
    }
}

/// Whether unmapping region `k` of `regions` can be computed, after the
/// regions before it were unmapped
pub open spec fn cleanup_step_ok(
    s: Seq<MemMappedRegion>,
    st: PageState,
    dir: u32,
    regions: Seq<MemMappedRegion>,
    k: int,
) -> bool {
    let prev = cleanup_unmap(s, st, dir, regions.take(k));
    let r = regions[k];
    let size = round_up(r.size as int) as u32;
    &&& r.size <= 0xfffff000
    &&& r.address.0 < 0xc0000000 ==> r.address.0 + size <= u32::MAX && unmap_offsets_ok(prev.0, r.address.0 as int, r.address.0 + size)
    &&& match unmap_outcome(prev.0, 0xc0000000, r.address, size) {
        Ok(sections) => sections_in_range(sections),
        Err(_) => true,
    }
}

/// Unmap every region of a terminated task's memory map, releasing the
/// frames that back them
fn unmap_task_memory(
    tasks: &mut TaskMap,
    mem: &mut PhysicalMemory,
    frames: &mut FrameTracker,
    files: &mut FilePageTracker,
    id: TaskID,
)
    requires
        old(tasks).wf(),
        old(mem).wf(),
        old(tasks)@.contains_key(id) ==> {
            let t = old(tasks)@[id];
            &&& t.memory_mapping.wf()
            &&& is_directory(old(mem)@, t.page_directory.0)
            &&& forall|k: int| 0 <= k < t.memory_mapping@.len() ==> #[trigger] cleanup_step_ok(
                t.memory_mapping@,
                state_of(old(mem), old(frames), old(files)),
                t.page_directory.0,
                t.memory_mapping@,
                k,
            )
        },
    ensures
        final(tasks).wf(),
        final(tasks).next_id() == old(tasks).next_id(),
        final(mem).wf(),
        final(mem).next_free() == old(mem).next_free(),
        final(mem).limit() == old(mem).limit(),
        !old(tasks)@.contains_key(id) ==> final(tasks)@ == old(tasks)@ && state_of(final(mem), final(frames), final(files))
            == state_of(old(mem), old(frames), old(files)),
        old(tasks)@.contains_key(id) ==> {
            let t = old(tasks)@[id];
            let result = cleanup_unmap(
                t.memory_mapping@,
                state_of(old(mem), old(frames), old(files)),
                t.page_directory.0,
                t.memory_mapping@,
            );
            &&& final(tasks)@ == old(tasks)@.insert(id, Task { memory_mapping: final(tasks)@[id].memory_mapping, ..t })
            &&& final(tasks)@[id].memory_mapping@ == result.0
            &&& state_of(final(mem), final(frames), final(files)) == result.1
            &&& is_directory(final(mem)@, t.page_directory.0)
        },
{
    proof { old(tasks).lemma_keys_are_ids(); }
    let regions = match tasks.get_task(id) {
        Some(t) => t.memory_mapping.all_regions(),
        None => return,
    };
    let ghost t = old(tasks)@[id];
    let ghost st0 = state_of(mem, frames, files);
    let mut i: usize = 0;
    while i < regions.len()
        invariant
            tasks.wf(),
            tasks.next_id() == old(tasks).next_id(),
            mem.wf(),
            mem.next_free() == old(mem).next_free(),
            mem.limit() == old(mem).limit(),
            old(tasks)@.contains_key(id),
            t == old(tasks)@[id],
            regions@ == t.memory_mapping@,
            st0 == state_of(old(mem), old(frames), old(files)),
            i <= regions@.len(),
            forall|k: int| 0 <= k < t.memory_mapping@.len() ==> #[trigger] cleanup_step_ok(
                t.memory_mapping@,
                st0,
                t.page_directory.0,
                t.memory_mapping@,
                k,
            ),
            tasks@ == old(tasks)@.insert(id, Task { memory_mapping: tasks@[id].memory_mapping, ..t }),
            tasks@[id].memory_mapping.wf(),
            is_directory(mem@, t.page_directory.0),
            ({
                let result = cleanup_unmap(t.memory_mapping@, st0, t.page_directory.0, regions@.take(i as int));
                &&& tasks@[id].memory_mapping@ == result.0
                &&& state_of(mem, frames, files) == result.1
            }),
        decreases regions@.len() - i,
    {
        let region = regions[i];
        proof {
            assert(cleanup_step_ok(t.memory_mapping@, st0, t.page_directory.0, t.memory_mapping@, i as int));
            assert(regions@.take(i + 1).drop_last() =~= regions@.take(i as int));
            assert(region.size + 0xfff <= u32::MAX);
        }
        let size = (region.size + 0xfff) & 0xfffff000;
        proof {
            let x = region.size;
            let y = (x + 0xfff) as u32;
            assert(y & 0xfffff000 == y - y % 4096) by (bit_vector);
            assert(size == round_up(region.size as int));
        }
        let _ = unmap_memory_for_task(tasks, mem, frames, files, id, region.address, size);
        proof {
            assert(tasks@ =~= old(tasks)@.insert(id, Task { memory_mapping: tasks@[id].memory_mapping, ..t }));
        }
        i = i + 1;
    }
    proof {
        assert(regions@.take(regions@.len() as int) =~= regions@);
    }
}

/// Release what a terminated task holds: its memory regions are unmapped,
/// freeing the frames that back them, and the frames of its page tables and
/// directory are returned, to be released by the frame allocator
pub fn clean_up_task(
    tasks: &mut TaskMap,
    mem: &mut PhysicalMemory,
    frames: &mut FrameTracker,
    files: &mut FilePageTracker,
    id: TaskID,
) -> (r: Vec<PhysicalAddress>)
    requires
        old(tasks).wf(),
        old(mem).wf(),
        old(tasks)@.contains_key(id) ==> {
            let t = old(tasks)@[id];
            &&& t.memory_mapping.wf()
            &&& is_directory(old(mem)@, t.page_directory.0)
            &&& forall|k: int| 0 <= k < t.memory_mapping@.len() ==> #[trigger] cleanup_step_ok(
                t.memory_mapping@,
                state_of(old(mem), old(frames), old(files)),
                t.page_directory.0,
                t.memory_mapping@,
                k,
            )
        },
    ensures
        final(tasks).wf(),
        final(tasks).next_id() == old(tasks).next_id(),
        final(mem).wf(),
        final(mem).next_free() == old(mem).next_free(),
        final(mem).limit() == old(mem).limit(),
        !old(tasks)@.contains_key(id) ==> {
            &&& r@.len() == 0
            &&& final(tasks)@ == old(tasks)@
            &&& state_of(final(mem), final(frames), final(files)) == state_of(old(mem), old(frames), old(files))
        },
        old(tasks)@.contains_key(id) ==> {
            let t = old(tasks)@[id];
            let result = cleanup_unmap(
                t.memory_mapping@,
                state_of(old(mem), old(frames), old(files)),
                t.page_directory.0,
                t.memory_mapping@,
            );
            &&& r@.map_values(|p: PhysicalAddress| p.0) == table_frames(old(mem)@[t.page_directory.0], t.page_directory.0)
            &&& final(tasks)@ == old(tasks)@.insert(id, Task { memory_mapping: final(tasks)@[id].memory_mapping, ..t })
            &&& final(tasks)@[id].memory_mapping@ == result.0
            &&& state_of(final(mem), final(frames), final(files)) == result.1
            &&& is_directory(final(mem)@, t.page_directory.0)
        },
{
    let released = free_task_page_tables(tasks, mem, id);
    unmap_task_memory(tasks, mem, frames, files, id);
    released
}

} // verus!
