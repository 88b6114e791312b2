//! The high-level actions that the current task can ask of the kernel:
//! sleeping, sending messages, creating and terminating tasks, passing
//! arguments to a new task, and unmapping memory. Each action works on the
//! kernel state it touches, handed in explicitly; switching away to another
//! task afterwards is left to the caller.
use vstd::prelude::*;
use crate::id::TaskID;
use crate::address::PhysicalAddress;
use crate::map::TaskMap;
use crate::messaging::{Message, MessagePacket, EnqueuedMessage, drop_expired};
use crate::paging::{PhysicalMemory, PermissionFlags, PageFault, is_directory, create_page_directory, cleared, mapped_frame, dir_index, translate, missing_tables, range_frame, added_reference, map_range, current_pagedir_unmap, page_on_demand, lemma_containing_region, in_region};
use crate::memory::free_space_below;
use crate::frames::{FrameTracker, FilePageTracker, released_counts, untrack_file_backed_page, page_key};
use crate::memory::{UnmappedRegion, UnmappedRegionKind, MemMapError, MemoryBacking, MemMappedRegion, unmap_outcome, unmap_regions, map_placement, map_request_ok, inserted};
use crate::address::VirtualAddress;
use crate::scheduling::WorkQueue;
use crate::stack::{StackAllocator, KernelStack, stack_base, is_lowest_free_slot, STACK_SIZE_IN_BYTES};
use crate::state::{Task, RunState, BlockType, after_child_exit};

verus! {

/// Pause the current task for `ms` milliseconds. During that time, it will
/// not be run by the scheduler.
pub fn sleep(tasks: &mut TaskMap, current: TaskID, ms: u32)
    requires
        old(tasks).wf(),
        old(tasks)@.contains_key(current),
        old(tasks)@[current].state == RunState::Running,
    ensures
        final(tasks).wf(),
        final(tasks).next_id() == old(tasks).next_id(),
        final(tasks)@ == old(tasks)@.insert(
            current,
            Task { state: RunState::Blocked(Some(ms), BlockType::Sleep), ..old(tasks)@[current] },
        ),
{
    proof { old(tasks).lemma_keys_are_ids(); }
    let mut task = tasks.take_task(current).unwrap();
    task.sleep(ms);
    tasks.insert_task(task);
    proof {
        assert(tasks@ =~= old(tasks)@.insert(
            current,
            Task { state: RunState::Blocked(Some(ms), BlockType::Sleep), ..old(tasks)@[current] },
        ));
    }
}

/// Send a message from the current task to the task `to_id`, valid until
/// `expiration`. A message to a task that does not exist is dropped.
pub fn send_message(tasks: &mut TaskMap, current_ticks: u32, current: TaskID, to_id: TaskID, message: Message, expiration: u32)
    requires
        old(tasks).wf(),
    ensures
        final(tasks).wf(),
        final(tasks).next_id() == old(tasks).next_id(),
        !old(tasks)@.contains_key(to_id) ==> final(tasks)@ == old(tasks)@,
        old(tasks)@.contains_key(to_id) ==> {
            let t = old(tasks)@[to_id];
            &&& final(tasks)@.dom() == old(tasks)@.dom()
            &&& forall|id: TaskID| id != to_id && #[trigger] old(tasks)@.contains_key(id) ==> final(tasks)@[id] == old(tasks)@[id]
            &&& final(tasks)@[to_id].message_queue@ == drop_expired(t.message_queue@, current_ticks).push(
                EnqueuedMessage { packet: MessagePacket { from: current, message }, expiration_ticks: expiration },
            )
            &&& final(tasks)@[to_id] == (Task {
                message_queue: final(tasks)@[to_id].message_queue,
                state: if t.state matches RunState::Blocked(_, BlockType::Message) {
                    RunState::Running
                } else {
                    t.state
                },
                ..t
            })
        },
{
    proof { old(tasks).lemma_keys_are_ids(); }
    match tasks.take_task(to_id) {
        Some(mut recipient) => {
            recipient.receive_message(current_ticks, current, message, expiration);
            tasks.insert_task(recipient);
        },
        None => {},
    }
}

/// The fields that a freshly created task starts with, beside its stack
pub open spec fn fresh_task(t: Task, id: TaskID, parent: TaskID, page_directory: u32) -> bool {
    &&& t.id == id
    &&& t.parent_id == parent
    &&& t.state == RunState::Uninitialized
    &&& t.page_directory.0 == page_directory
    &&& t.memory_mapping@.len() == 0
    &&& t.memory_mapping.wf()
    &&& t.message_queue@.len() == 0
    &&& t.args.wf()
    &&& t.args.args().len() == 0
    &&& t.kernel_stack matches Some(s) && s.bytes@.len() == STACK_SIZE_IN_BYTES && t.stack_pointer == s.base + STACK_SIZE_IN_BYTES - 4
}

/// The ID that the generator hands out after `id`
pub open spec fn next_task_id(id: u32) -> u32 {
    if id == u32::MAX {
        0
    } else {
        (id + 1) as u32
    }
}

/// Create a new task, a child of the current task: it takes the next ID, a
/// fresh kernel stack, and a new page directory that shares the kernel's
/// mappings. It does not run until it is given an entry point.
pub fn create_task(
    tasks: &mut TaskMap,
    stacks: &mut StackAllocator,
    mem: &mut PhysicalMemory,
    current_dir: PhysicalAddress,
    current: TaskID,
) -> (r: TaskID)
    requires
        old(tasks).wf(),
        old(mem).wf(),
        is_directory(old(mem)@, current_dir.0),
        old(stacks).can_allocate(old(mem), current_dir.0),
        old(mem).next_free() + 0x2000 <= old(mem).limit(),
    ensures
        final(tasks).wf(),
        r.0 == old(tasks).next_id(),
        final(tasks).next_id() == next_task_id(old(tasks).next_id()),
        final(tasks)@ == old(tasks)@.insert(r, final(tasks)@[r]),
        fresh_task(final(tasks)@[r], r, current, (old(mem).next_free() + 0x1000) as u32),
        exists|i: int| #![trigger is_lowest_free_slot(old(stacks).bitmap(), i)]
            is_lowest_free_slot(old(stacks).bitmap(), i) && final(tasks)@[r].kernel_stack->0.base == stack_base(old(stacks).top() as int, i),
        final(stacks).top() == old(stacks).top(),
        final(mem).wf(),
        final(mem).limit() == old(mem).limit(),
        final(mem).next_free() == old(mem).next_free() + 0x2000,
        is_directory(final(mem)@, current_dir.0),
        is_directory(final(mem)@, (old(mem).next_free() + 0x1000) as u32),
{
    let task_id = tasks.get_next_task_id();
    let task_stack = stacks.allocate_stack(mem, current_dir);
    proof {
        let i = choose|i: int| #![trigger is_lowest_free_slot(old(stacks).bitmap(), i)]
            is_lowest_free_slot(old(stacks).bitmap(), i) && task_stack.base == stack_base(old(stacks).top() as int, i);
        assert((i + 1) * STACK_SIZE_IN_BYTES <= old(stacks).top());
    }
    let mut task_state = Task::new(task_id, current, task_stack);
    task_state.page_directory = create_page_directory(mem, current_dir);
    tasks.insert_task(task_state);
    proof {
        assert(tasks@ =~= old(tasks)@.insert(task_id, tasks@[task_id]));
    }
    task_id
}

/// Create the task that runs when no other task can, on the given stack
pub fn create_idle_task(tasks: &mut TaskMap, mem: &mut PhysicalMemory, current_dir: PhysicalAddress, stack: KernelStack) -> (r: TaskID)
    requires
        old(tasks).wf(),
        old(mem).wf(),
        is_directory(old(mem)@, current_dir.0),
        old(mem).next_free() + 0x1000 <= old(mem).limit(),
        stack.bytes@.len() == STACK_SIZE_IN_BYTES,
        stack.base + STACK_SIZE_IN_BYTES <= usize::MAX,
    ensures
        final(tasks).wf(),
        r.0 == old(tasks).next_id(),
        final(tasks).next_id() == next_task_id(old(tasks).next_id()),
        final(tasks)@ == old(tasks)@.insert(r, final(tasks)@[r]),
        fresh_task(final(tasks)@[r], r, TaskID(0), old(mem).next_free()),
        final(tasks)@[r].kernel_stack == Some(stack),
        final(tasks)@[r].filename@ == "IDLE"@,
        final(mem).wf(),
        final(mem).limit() == old(mem).limit(),
        final(mem).next_free() == old(mem).next_free() + 0x1000,
        is_directory(final(mem)@, current_dir.0),
        is_directory(final(mem)@, old(mem).next_free()),
{
    let task_id = tasks.get_next_task_id();
    let mut task_state = Task::new(task_id, TaskID::new(0), stack);
    task_state.page_directory = create_page_directory(mem, current_dir);
    task_state.filename = "IDLE".to_owned();
    tasks.insert_task(task_state);
    proof {
        assert(tasks@ =~= old(tasks)@.insert(task_id, tasks@[task_id]));
    }
    task_id
}

/// Create a task that runs kernel code from `entry_point`, under the name
/// given or "KERNEL", and queue it to run
pub fn create_kernel_task(
    tasks: &mut TaskMap,
    stacks: &mut StackAllocator,
    mem: &mut PhysicalMemory,
    queue: &mut WorkQueue,
    current_dir: PhysicalAddress,
    current: TaskID,
    entry_point: u32,
    name: Option<&str>,
) -> (r: TaskID)
    requires
        old(tasks).wf(),
        old(mem).wf(),
        is_directory(old(mem)@, current_dir.0),
        old(stacks).can_allocate(old(mem), current_dir.0),
        old(mem).next_free() + 0x2000 <= old(mem).limit(),
    ensures
        final(tasks).wf(),
        r.0 == old(tasks).next_id(),
        final(tasks).next_id() == next_task_id(old(tasks).next_id()),
        final(tasks)@ == old(tasks)@.insert(r, final(tasks)@[r]),
        final(tasks)@[r].id == r,
        final(tasks)@[r].parent_id == current,
        final(tasks)@[r].state == RunState::Running,
        final(tasks)@[r].page_directory.0 == old(mem).next_free() + 0x1000,
        final(tasks)@[r].filename@ == match name {
            Some(n) => n@,
            None => "KERNEL"@,
        },
        final(tasks)@[r].kernel_stack matches Some(s) && {
            let top = s.base + STACK_SIZE_IN_BYTES - 4;
            &&& s.bytes@.len() == STACK_SIZE_IN_BYTES
            &&& final(tasks)@[r].stack_pointer == top - 32
            &&& s.bytes@.subrange(top - 32 - s.base, top - 28 - s.base) == crate::state::le_bytes(entry_point)
            &&& forall|i: int| top - 28 - s.base <= i < top - s.base ==> s.bytes@[i] == 0
        },
        final(queue).items() == old(queue).items().push(Some(r)),
        final(mem).wf(),
        final(mem).limit() == old(mem).limit(),
        final(mem).next_free() == old(mem).next_free() + 0x2000,
        is_directory(final(mem)@, current_dir.0),
        is_directory(final(mem)@, (old(mem).next_free() + 0x1000) as u32),
{
    let task_id = create_task(tasks, stacks, mem, current_dir, current);
    proof { tasks.lemma_keys_are_ids(); }
    let ghost mid = tasks@;
    let mut task_state = tasks.take_task(task_id).unwrap();
    task_state.set_entry_point(entry_point);
    task_state.state = RunState::Running;
    task_state.filename = match name {
        Some(n) => n.to_owned(),
        None => "KERNEL".to_owned(),
    };
    tasks.insert_task(task_state);
    proof {
        assert(tasks@ =~= old(tasks)@.insert(task_id, tasks@[task_id]));
    }
    queue.reenqueue_task(task_id);
    task_id
}

/// Add arguments to a task, in order, before it begins executing
pub fn add_args(tasks: &mut TaskMap, id: TaskID, args: &Vec<String>)
    requires
        old(tasks).wf(),
        old(tasks)@.contains_key(id),
        old(tasks)@[id].args.wf(),
        forall|i: int| 0 <= i < args@.len() ==> vstd::utf8::encode_utf8((#[trigger] args@[i])@).len() < u32::MAX,
    ensures
        final(tasks).wf(),
        final(tasks).next_id() == old(tasks).next_id(),
        final(tasks)@ == old(tasks)@.insert(id, Task { args: final(tasks)@[id].args, ..old(tasks)@[id] }),
        final(tasks)@[id].args.wf(),
        final(tasks)@[id].args.args() == old(tasks)@[id].args.args() + args@.map_values(|a: String| vstd::utf8::encode_utf8(a@)),
{
    proof { old(tasks).lemma_keys_are_ids(); }
    let mut task = tasks.take_task(id).unwrap();
    let ghost start = task.args.args();
    let mut i: usize = 0;
    while i < args.len()
        invariant
            i <= args@.len(),
            task.args.wf(),
            task.args.args() == start + args@.take(i as int).map_values(|a: String| vstd::utf8::encode_utf8(a@)),
            task == (Task { args: task.args, ..old(tasks)@[id] }),
            forall|k: int| 0 <= k < args@.len() ==> vstd::utf8::encode_utf8((#[trigger] args@[k])@).len() < u32::MAX,
            old(tasks)@.contains_key(id),
        decreases args@.len() - i,
    {
        let ghost before = task.args.args();
        task.args.add(args[i].as_str());
        proof {
            assert(args@.take(i + 1).map_values(|a: String| vstd::utf8::encode_utf8(a@)) =~= args@.take(i as int).map_values(
                |a: String| vstd::utf8::encode_utf8(a@),
            ).push(vstd::utf8::encode_utf8(args@[i as int]@)));
        }
        i = i + 1;
    }
    proof {
        assert(args@.take(args@.len() as int) =~= args@);
    }
    tasks.insert_task(task);
    proof {
        assert(tasks@ =~= old(tasks)@.insert(id, Task { args: tasks@[id].args, ..old(tasks)@[id] }));
    }
}

/// Tasks after the task `id` terminates with `exit_code`: it is marked
/// terminated, and its parent, if it waits on it, resumes with the code
pub open spec fn terminated(tasks: Map<TaskID, Task>, id: TaskID, exit_code: u32) -> Map<TaskID, Task> {
    if !tasks.contains_key(id) {
        tasks
    } else {
        let after = tasks.insert(id, Task { state: RunState::Terminated, ..tasks[id] });
        let parent = tasks[id].parent_id;
        if after.contains_key(parent) {
            after.insert(parent, Task { state: after_child_exit(after[parent].state, id, exit_code), ..after[parent] })
        } else {
            after
        }
    }
}

/// End the task `id` with an exit code, and let its parent know
pub fn terminate_id(tasks: &mut TaskMap, id: TaskID, exit_code: u32)
    requires
        old(tasks).wf(),
    ensures
        final(tasks).wf(),
        final(tasks).next_id() == old(tasks).next_id(),
        final(tasks)@ == terminated(old(tasks)@, id, exit_code),
{
    proof { old(tasks).lemma_keys_are_ids(); }
    let parent_id = match tasks.take_task(id) {
        Some(mut task) => {
            task.terminate();
            let parent_id = task.parent_id;
            tasks.insert_task(task);
            parent_id
        },
        None => return,
    };
    let ghost after = tasks@;
    assert(after =~= old(tasks)@.insert(id, Task { state: RunState::Terminated, ..old(tasks)@[id] }));
    proof { tasks.lemma_keys_are_ids(); }
    match tasks.take_task(parent_id) {
        Some(mut parent) => {
            parent.child_terminated(id, exit_code);
            tasks.insert_task(parent);
            assert(tasks@ =~= terminated(old(tasks)@, id, exit_code));
        },
        None => {},
    }
}

pub fn terminate_task(tasks: &mut TaskMap, id: TaskID, exit_code: u32)
    requires
        old(tasks).wf(),
    ensures
        final(tasks).wf(),
        final(tasks).next_id() == old(tasks).next_id(),
        final(tasks)@ == terminated(old(tasks)@, id, exit_code),
{
    terminate_id(tasks, id, exit_code);
}

/// End the current task with an exit code. The caller switches away from it
/// afterwards, and it never runs again.
pub fn terminate(tasks: &mut TaskMap, current: TaskID, exit_code: u32)
    requires
        old(tasks).wf(),
    ensures
        final(tasks).wf(),
        final(tasks).next_id() == old(tasks).next_id(),
        final(tasks)@ == terminated(old(tasks)@, current, exit_code),
{
    terminate_id(tasks, current, exit_code);
}

/// The exit code of a task ended by an exception
pub const EXCEPTION_EXIT_CODE: u32 = 255;

/// The current task raised an exception it cannot handle: it is terminated
/// with the exit code 255
pub fn exception(tasks: &mut TaskMap, current: TaskID)
    requires
        old(tasks).wf(),
    ensures
        final(tasks).wf(),
        final(tasks).next_id() == old(tasks).next_id(),
        final(tasks)@ == terminated(old(tasks)@, current, EXCEPTION_EXIT_CODE),
{
    terminate_id(tasks, current, EXCEPTION_EXIT_CODE);
}

/// A parent that waits on a child resumes with the child's exit code once the
/// child terminates, and then hands that code back when it resumes
pub proof fn law_parent_resumes_with_exit_code(tasks: Map<TaskID, Task>, child: TaskID, exit_code: u32, timeout: Option<u32>)
    requires
        tasks.contains_key(child),
        tasks.contains_key(tasks[child].parent_id),
        tasks[child].parent_id != child,
        tasks[tasks[child].parent_id].state == RunState::Blocked(timeout, BlockType::WaitForChild(child)),
    ensures
        terminated(tasks, child, exit_code)[tasks[child].parent_id].state == RunState::Resuming(exit_code),
        terminated(tasks, child, exit_code)[child].state == RunState::Terminated,
{
}

/// Terminating a task touches only the task and its parent
pub proof fn law_terminate_touches_two(tasks: Map<TaskID, Task>, id: TaskID, exit_code: u32, other: TaskID)
    requires
        tasks.contains_key(id),
        other != id,
        other != tasks[id].parent_id,
    ensures
        terminated(tasks, id, exit_code).dom() == tasks.dom(),
        tasks.contains_key(other) ==> terminated(tasks, id, exit_code)[other] == tasks[other],
{
}

/// A byte of a buffer, with bytes past its end reading as zero
pub open spec fn byte_at(buf: Seq<u8>, k: int) -> int {
    if 0 <= k < buf.len() {
        buf[k] as int
    } else {
        0
    }
}

/// The little-endian 16-bit size that precedes an argument
pub open spec fn size_field(buf: Seq<u8>, offset: int) -> int {
    byte_at(buf, offset) + 256 * byte_at(buf, offset + 1)
}

/// The length of the argument at `offset`: its size field, cut short at the
/// end of the arguments
pub open spec fn next_arg_len(buf: Seq<u8>, total: int, offset: int) -> int {
    let size = size_field(buf, offset);
    if size < total - offset {
        size
    } else {
        total - offset
    }
}

pub open spec fn min_int(a: int, b: int) -> int {
    if a < b {
        a
    } else {
        b
    }
}

/// The bytes of the argument at `offset`, as far as the buffer holds them
pub open spec fn next_arg(buf: Seq<u8>, total: int, offset: int) -> Seq<u8> {
    buf.subrange(
        min_int(offset + 2, buf.len() as int),
        min_int(offset + 2 + next_arg_len(buf, total, offset), buf.len() as int),
    )
}

/// Reads the arguments passed by the add_args system call: each is a
/// little-endian 16-bit size followed by that many bytes
pub struct InMemoryArgsIterator {
    buffer: Vec<u8>,
    total_length: usize,
    current_index: usize,
    current_offset: usize,
}

impl InMemoryArgsIterator {
    /// The bytes the arguments are read from
    pub closed spec fn buffer(&self) -> Seq<u8> {
        self.buffer@
    }

    /// The number of bytes that hold arguments
    pub closed spec fn total(&self) -> int {
        self.total_length as int
    }

    /// The offset of the next argument
    pub closed spec fn offset(&self) -> int {
        self.current_offset as int
    }

    /// The number of arguments read so far
    pub closed spec fn index(&self) -> int {
        self.current_index as int
    }

    pub closed spec fn wf(&self) -> bool {
        &&& self.total_length <= self.buffer@.len()
        &&& self.total_length + 2 <= usize::MAX
        &&& self.current_offset <= self.total_length + 2
    }

    pub fn new(buffer: Vec<u8>, total_length: usize) -> (r: Self)
        requires
            total_length <= buffer@.len(),
            total_length + 2 <= usize::MAX,
        ensures
            r.wf(),
            r.buffer() == buffer@,
            r.total() == total_length,
            r.offset() == 0,
            r.index() == 0,
    {
        InMemoryArgsIterator { buffer, total_length, current_index: 0, current_offset: 0 }
    }

    fn byte(&self, k: usize) -> (r: usize)
        ensures
            r == byte_at(self.buffer@, k as int),
    {
        if k < self.buffer.len() {
            self.buffer[k] as usize
        } else {
            0
        }
    }

    /// The next argument, or `None` once every byte has been read
    pub fn next(&mut self) -> (r: Option<Vec<u8>>)
        requires
            old(self).wf(),
            old(self).index() < usize::MAX,
        ensures
            final(self).wf(),
            final(self).buffer() == old(self).buffer(),
            final(self).total() == old(self).total(),
            old(self).offset() >= old(self).total() ==> r is None && final(self).offset() == old(self).offset()
                && final(self).index() == old(self).index(),
            old(self).offset() < old(self).total() ==> {
                &&& r matches Some(a) && a@ == next_arg(old(self).buffer(), old(self).total(), old(self).offset())
                &&& final(self).offset() == old(self).offset() + 2 + next_arg_len(old(self).buffer(), old(self).total(), old(self).offset())
                &&& final(self).index() == old(self).index() + 1
            },
    {
        if self.current_offset >= self.total_length {
            return None;
        }
        let offset = self.current_offset;
        let size = self.byte(offset) + 256 * self.byte(offset + 1);
        let rest = self.total_length - offset;
        let arg_size = if size < rest { size } else { rest };
        let start = if offset + 2 < self.buffer.len() { offset + 2 } else { self.buffer.len() };
        let end = if offset + 2 + arg_size < self.buffer.len() { offset + 2 + arg_size } else { self.buffer.len() };
        let mut arg: Vec<u8> = Vec::new();
        let mut k = start;
        while k < end
            invariant
                start <= k <= end <= self.buffer@.len(),
                arg@ == self.buffer@.subrange(start as int, k as int),
            decreases end - k,
        {
            arg.push(self.buffer[k]);
            assert(self.buffer@.subrange(start as int, k + 1) =~= self.buffer@.subrange(start as int, k as int).push(self.buffer@[k as int]));
            k = k + 1;
        }
        self.current_offset = offset + 2 + arg_size;
        self.current_index = self.current_index + 1;
        Some(arg)
    }
}

/// The form in which arguments are handed to add_args: for each, its length
/// as a little-endian 16-bit number, then its bytes
pub open spec fn encode_prefixed(args: Seq<Seq<u8>>) -> Seq<u8>
    decreases args.len(),
{
    if args.len() == 0 {
        Seq::empty()
    } else {
        encode_prefixed(args.drop_last()) + seq![(args.last().len() % 256) as u8, (args.last().len() / 256) as u8]
            + args.last()
    }
}

proof fn lemma_encode_step(args: Seq<Seq<u8>>, k: int)
    requires
        0 <= k < args.len(),
    ensures
        encode_prefixed(args.take(k + 1)) == encode_prefixed(args.take(k)) + seq![
            (args[k].len() % 256) as u8,
            (args[k].len() / 256) as u8,
        ] + args[k],
{
    assert(args.take(k + 1).drop_last() =~= args.take(k));
}

proof fn lemma_encode_prefix(args: Seq<Seq<u8>>, k: int)
    requires
        0 <= k <= args.len(),
    ensures
        encode_prefixed(args.take(k)).len() <= encode_prefixed(args).len(),
        encode_prefixed(args).subrange(0, encode_prefixed(args.take(k)).len() as int) == encode_prefixed(args.take(k)),
    decreases args.len() - k,
{
    if k == args.len() {
        assert(args.take(k) =~= args);
        assert(encode_prefixed(args).subrange(0, encode_prefixed(args).len() as int) =~= encode_prefixed(args));
    } else {
        lemma_encode_prefix(args, k + 1);
        lemma_encode_step(args, k);
        let small = encode_prefixed(args.take(k));
        let big = encode_prefixed(args.take(k + 1));
        let all = encode_prefixed(args);
        assert(all.subrange(0, small.len() as int) =~= big.subrange(0, small.len() as int));
        assert(big.subrange(0, small.len() as int) =~= small);
    }
}

/// Reading arguments written in the add_args form gives each argument back,
/// in order: the argument at the offset where the first `k` end is the next
/// one, and it ends where the first `k + 1` end
pub proof fn law_args_round_trip(args: Seq<Seq<u8>>, k: int)
    requires
        0 <= k < args.len(),
        forall|i: int| 0 <= i < args.len() ==> (#[trigger] args[i]).len() < 0x10000,
    ensures
        ({
            let buf = encode_prefixed(args);
            let offset = encode_prefixed(args.take(k)).len() as int;
            &&& offset < buf.len()
            &&& next_arg(buf, buf.len() as int, offset) == args[k]
            &&& offset + 2 + next_arg_len(buf, buf.len() as int, offset) == encode_prefixed(args.take(k + 1)).len()
        }),
{
    let buf = encode_prefixed(args);
    let small = encode_prefixed(args.take(k));
    let big = encode_prefixed(args.take(k + 1));
    let offset = small.len() as int;
    let n = args[k].len();
    lemma_encode_step(args, k);
    lemma_encode_prefix(args, k + 1);
    assert(big.len() == offset + 2 + n);
    assert(buf.subrange(0, big.len() as int) == big);
    assert(buf[offset] == big[offset]);
    assert(buf[offset + 1] == big[offset + 1]);
    assert(big[offset] == (n % 256) as u8);
    assert(big[offset + 1] == (n / 256) as u8);
    assert(size_field(buf, offset) == n);
    assert(next_arg_len(buf, buf.len() as int, offset) == n);
    assert(next_arg(buf, buf.len() as int, offset) =~= args[k]) by {
        assert forall|i: int| 0 <= i < n implies buf[offset + 2 + i] == args[k][i] by {
            assert(buf[offset + 2 + i] == big[offset + 2 + i]);
        }
    }
}

/// The state that unmapping pages changes: the page tables, the reference
/// counts of frames, and the frames of shared file pages
pub struct PageState {
    pub mem: Map<u32, Seq<u32>>,
    pub counts: Map<u32, u32>,
    pub files: Map<(u32, u32, u32), u32>,
}

/// The key under which a removed section's shared file page is recorded, if
/// the section is a shared file mapping
pub open spec fn shared_file_key(kind: UnmappedRegionKind) -> Option<(u32, u32, u32)> {
    match kind {
        UnmappedRegionKind::FileBacked { driver_id, mapping_token, offset_in_file, shared } => if shared {
            Some(page_key(driver_id, mapping_token, offset_in_file))
        } else {
            None
        },
        _ => None,
    }
}

/// Unmap the page of `page`: when it is mapped, its entry is cleared and one
/// reference to its frame is dropped; when that frees the frame of a shared
/// file mapping, the file page is forgotten
pub open spec fn unmap_page_step(st: PageState, dir: u32, page: u32, key: Option<(u32, u32, u32)>) -> PageState {
    match mapped_frame(st.mem, dir, page) {
        None => st,
        Some(f) => {
            let freed = !(st.counts.contains_key(f) && st.counts[f] > 1);
            PageState {
                mem: cleared(st.mem, dir, page),
                counts: released_counts(st.counts, f),
                files: if freed && key is Some {
                    st.files.remove(key->0)
                } else {
                    st.files
                },
            }
        },
    }
}

/// Unmap `count` consecutive pages from `base`, in ascending order
pub open spec fn unmap_pages_from(st: PageState, dir: u32, base: u32, count: nat, key: Option<(u32, u32, u32)>) -> PageState
    decreases count,
{
    if count == 0 {
        st
    } else {
        unmap_page_step(unmap_pages_from(st, dir, base, (count - 1) as nat, key), dir, (base + (count - 1) * 0x1000) as u32, key)
    }
}

/// The number of pages that `length` bytes touch
pub open spec fn pages_for(length: u32) -> nat {
    ((length + 0xfff) / 0x1000) as nat
}

/// The pages that a length touches from a page boundary: enough to hold it, and one fewer
/// would not be.
pub proof fn law_pages_for(length: u32)
    ensures
        pages_for(length) * 0x1000 >= length,
        length > 0 ==> (pages_for(length) - 1) * 0x1000 < length,
        length == 0 ==> pages_for(length) == 0,
{
    let n = length + 0xfff;
    let q = n / 0x1000;
    assert(q * 0x1000 <= n < q * 0x1000 + 0x1000) by (nonlinear_arith)
        requires
            q == n / 0x1000,
            n >= 0,
    ;
}

/// Unmap the sections removed from a memory map, each over its own size
pub open spec fn unmap_sections(st: PageState, dir: u32, sections: Seq<UnmappedRegion>) -> PageState
    decreases sections.len(),
{
    if sections.len() == 0 {
        st
    } else {
        let prev = unmap_sections(st, dir, sections.drop_last());
        let r = sections.last();
        unmap_pages_from(prev, dir, r.address.0, pages_for(r.size), shared_file_key(r.kind))
    }
}

/// Whether the pages that unmapping covers stay below the top 4 MiB
pub open spec fn pages_in_range(base: u32, length: u32) -> bool {
    &&& length <= 0xfffff000
    &&& pages_for(length) == 0 || base + (pages_for(length) - 1) * 0x1000 < 0xffc00000
}

pub open spec fn sections_in_range(sections: Seq<UnmappedRegion>) -> bool {
    forall|i: int| 0 <= i < sections.len() ==> pages_in_range((#[trigger] sections[i]).address.0, sections[i].size)
}

pub open spec fn state_of(mem: &PhysicalMemory, frames: &FrameTracker, files: &FilePageTracker) -> PageState {
    PageState { mem: mem@, counts: frames@, files: files@ }
}

/// Unmap the pages of a removed section, from its start over `length` bytes,
/// releasing their frames
fn unmap_section(
    mem: &mut PhysicalMemory,
    frames: &mut FrameTracker,
    files: &mut FilePageTracker,
    dir: PhysicalAddress,
    region: &UnmappedRegion,
    length: u32,
)
    requires
        old(mem).wf(),
        is_directory(old(mem)@, dir.0),
        pages_in_range(region.address.0, length),
    ensures
        final(mem).wf(),
        final(mem).next_free() == old(mem).next_free(),
        final(mem).limit() == old(mem).limit(),
        is_directory(final(mem)@, dir.0),
        state_of(final(mem), final(frames), final(files)) == unmap_pages_from(
            state_of(old(mem), old(frames), old(files)),
            dir.0,
            region.address.0,
            pages_for(length),
            shared_file_key(region.kind),
        ),
{
    let ghost st0 = state_of(mem, frames, files);
    let ghost key = shared_file_key(region.kind);
    let mut offset: u32 = 0;
    let ghost mut j: nat = 0;
    while offset < length
        invariant
            mem.wf(),
            mem.next_free() == old(mem).next_free(),
            mem.limit() == old(mem).limit(),
            is_directory(mem@, dir.0),
            pages_in_range(region.address.0, length),
            offset == j * 0x1000,
            j <= pages_for(length),
            j < pages_for(length) <==> offset < length,
            key == shared_file_key(region.kind),
            state_of(mem, frames, files) == unmap_pages_from(st0, dir.0, region.address.0, j, key),
        decreases length as int + 0x1000 - offset,
    {
        let mapping = VirtualAddress::new(region.address.0 + offset);
        proof {
            assert(dir_index(mapping.0) < 1023) by (nonlinear_arith)
                requires mapping.0 == region.address.0 + j * 0x1000, region.address.0 + (pages_for(length) - 1) * 0x1000 < 0xffc00000,
                    j < pages_for(length), dir_index(mapping.0) == mapping.0 as int / 0x400000;
        }
        let ghost before = state_of(mem, frames, files);
        match current_pagedir_unmap(mem, dir, mapping) {
            Some(frame) => {
                let released = frames.release_tracked_frame(frame.to_physical_address());
                if released {
                    if let crate::memory::UnmappedRegionKind::FileBacked { driver_id, mapping_token, offset_in_file, shared } = region.kind {
                        if shared {
                            untrack_file_backed_page(files, driver_id, mapping_token, offset_in_file);
                        }
                    }
                }
            },
            None => {},
        }
        proof {
            assert(state_of(mem, frames, files) == unmap_page_step(before, dir.0, mapping.0, key));
            assert(offset + 0x1000 == (j + 1) * 0x1000);
            assert((j + 1 < pages_for(length)) <==> (offset + 0x1000 < length)) by (nonlinear_arith)
                requires offset == j * 0x1000, j < pages_for(length), pages_for(length) == (length + 0xfff) / 0x1000;
            j = j + 1;
        }
        offset = offset + 0x1000;
    }
    proof {
        assert(j == pages_for(length)) by (nonlinear_arith)
            requires offset == j * 0x1000, offset >= length, j <= pages_for(length), pages_for(length) == (length + 0xfff) / 0x1000,
                (j < pages_for(length) <==> offset < length);
    }
}

/// Remove `size` bytes at `addr` from a task's memory map, and unmap the
/// pages of every removed section from the task's page directory, releasing
/// their frames
pub fn unmap_memory_for_task(
    tasks: &mut TaskMap,
    mem: &mut PhysicalMemory,
    frames: &mut FrameTracker,
    files: &mut FilePageTracker,
    task_id: TaskID,
    addr: VirtualAddress,
    size: u32,
) -> (r: Result<(), MemMapError>)
    requires
        old(tasks).wf(),
        old(mem).wf(),
        old(tasks)@.contains_key(task_id) ==> {
            let t = old(tasks)@[task_id];
            &&& t.memory_mapping.wf()
            &&& is_directory(old(mem)@, t.page_directory.0)
            &&& addr.0 < 0xc0000000 ==> addr.0 + size <= u32::MAX
                && crate::memory::unmap_offsets_ok(t.memory_mapping@, addr.0 as int, addr.0 + size)
            &&& match unmap_outcome(t.memory_mapping@, 0xc0000000, addr, size) {
                Ok(sections) => sections_in_range(sections),
                Err(_) => true,
            }
        },
    ensures
        final(tasks).wf(),
        final(tasks).next_id() == old(tasks).next_id(),
        final(mem).wf(),
        final(mem).next_free() == old(mem).next_free(),
        final(mem).limit() == old(mem).limit(),
        !old(tasks)@.contains_key(task_id) ==> {
            &&& r == Err::<(), MemMapError>(MemMapError::NoTask)
            &&& final(tasks)@ == old(tasks)@
            &&& state_of(final(mem), final(frames), final(files)) == state_of(old(mem), old(frames), old(files))
        },
        old(tasks)@.contains_key(task_id) ==> {
            let t = old(tasks)@[task_id];
            match unmap_outcome(t.memory_mapping@, 0xc0000000, addr, size) {
                Err(e) => {
                    &&& r == Err::<(), MemMapError>(e)
                    &&& final(tasks)@ == old(tasks)@
                    &&& state_of(final(mem), final(frames), final(files)) == state_of(old(mem), old(frames), old(files))
                },
                Ok(sections) => {
                    &&& r == Ok::<(), MemMapError>(())
                    &&& final(tasks)@ == old(tasks)@.insert(task_id, Task { memory_mapping: final(tasks)@[task_id].memory_mapping, ..t })
                    &&& final(tasks)@[task_id].memory_mapping@ == unmap_regions(t.memory_mapping@, addr.0 as int, addr.0 + size)
                    &&& final(tasks)@[task_id].memory_mapping.wf()
                    &&& is_directory(final(mem)@, t.page_directory.0)
                    &&& state_of(final(mem), final(frames), final(files)) == unmap_sections(
                        state_of(old(mem), old(frames), old(files)),
                        t.page_directory.0,
                        sections,
                    )
                },
            }
        },
{
    proof { old(tasks).lemma_keys_are_ids(); }
    let mut task = match tasks.take_task(task_id) {
        Some(t) => t,
        None => return Err(MemMapError::NoTask),
    };
    let result = task.memory_mapping.unmap_memory(addr, size);
    let dir = task.page_directory;
    tasks.insert_task(task);
    proof {
        assert(tasks@ =~= old(tasks)@.insert(task_id, Task { memory_mapping: tasks@[task_id].memory_mapping, ..old(tasks)@[task_id] }));
    }
    let sections = match result {
        Ok(v) => v,
        Err(e) => {
            proof {
                assert(tasks@ =~= old(tasks)@);
            }
            return Err(e);
        },
    };
    let ghost st0 = state_of(mem, frames, files);
    let mut i: usize = 0;
    while i < sections.len()
        invariant
            mem.wf(),
            mem.next_free() == old(mem).next_free(),
            mem.limit() == old(mem).limit(),
            is_directory(mem@, dir.0),
            i <= sections@.len(),
            sections_in_range(sections@),
            state_of(mem, frames, files) == unmap_sections(st0, dir.0, sections@.take(i as int)),
        decreases sections@.len() - i,
    {
        let len = sections[i].size;
        proof {
            assert(pages_in_range(sections@[i as int].address.0, len));
            assert(sections@.take(i + 1).drop_last() =~= sections@.take(i as int));
        }
        unmap_section(mem, frames, files, dir, &sections[i], len);
        i = i + 1;
    }
    proof {
        assert(sections@.take(sections@.len() as int) =~= sections@);
    }
    Ok(())
}

/// Unmap memory from the current task
pub fn unmap_memory(
    tasks: &mut TaskMap,
    mem: &mut PhysicalMemory,
    frames: &mut FrameTracker,
    files: &mut FilePageTracker,
    current: TaskID,
    addr: VirtualAddress,
    size: u32,
) -> (r: Result<(), MemMapError>)
    requires
        old(tasks).wf(),
        old(mem).wf(),
        old(tasks)@.contains_key(current) ==> {
            let t = old(tasks)@[current];
            &&& t.memory_mapping.wf()
            &&& is_directory(old(mem)@, t.page_directory.0)
            &&& addr.0 < 0xc0000000 ==> addr.0 + size <= u32::MAX
                && crate::memory::unmap_offsets_ok(t.memory_mapping@, addr.0 as int, addr.0 + size)
            &&& match unmap_outcome(t.memory_mapping@, 0xc0000000, addr, size) {
                Ok(sections) => sections_in_range(sections),
                Err(_) => true,
            }
        },
    ensures
        final(tasks).wf(),
        final(tasks).next_id() == old(tasks).next_id(),
        final(mem).wf(),
        final(mem).next_free() == old(mem).next_free(),
        final(mem).limit() == old(mem).limit(),
        !old(tasks)@.contains_key(current) ==> {
            &&& r == Err::<(), MemMapError>(MemMapError::NoTask)
            &&& final(tasks)@ == old(tasks)@
            &&& state_of(final(mem), final(frames), final(files)) == state_of(old(mem), old(frames), old(files))
        },
        old(tasks)@.contains_key(current) ==> {
            let t = old(tasks)@[current];
            match unmap_outcome(t.memory_mapping@, 0xc0000000, addr, size) {
                Err(e) => {
                    &&& r == Err::<(), MemMapError>(e)
                    &&& final(tasks)@ == old(tasks)@
                    &&& state_of(final(mem), final(frames), final(files)) == state_of(old(mem), old(frames), old(files))
                },
                Ok(sections) => {
                    &&& r == Ok::<(), MemMapError>(())
                    &&& final(tasks)@ == old(tasks)@.insert(current, Task { memory_mapping: final(tasks)@[current].memory_mapping, ..t })
                    &&& final(tasks)@[current].memory_mapping@ == unmap_regions(t.memory_mapping@, addr.0 as int, addr.0 + size)
                    &&& is_directory(final(mem)@, t.page_directory.0)
                    &&& state_of(final(mem), final(frames), final(files)) == unmap_sections(
                        state_of(old(mem), old(frames), old(files)),
                        t.page_directory.0,
                        sections,
                    )
                },
            }
        },
{
    unmap_memory_for_task(tasks, mem, frames, files, current, addr, size)
}

/// The counts after one reference is added to each of `count` consecutive
/// frames from `paddr`
pub open spec fn add_references(counts: Map<u32, u32>, paddr: u32, count: nat) -> Map<u32, u32>
    decreases count,
{
    if count == 0 {
        counts
    } else {
        added_reference(add_references(counts, paddr, (count - 1) as nat), (paddr + (count - 1) * 0x1000) as u32)
    }
}

/// Whether the pages of a direct mapping at `vaddr` can be entered in the
/// directory: page-aligned, below the top 4 MiB, onto frames within the
/// address space, with enough free frames for the missing tables
pub open spec fn direct_map_ok(mem: &PhysicalMemory, dir: u32, vaddr: int, paddr: u32, size: u32) -> bool {
    let count = pages_for(size);
    &&& is_directory(mem@, dir)
    &&& vaddr % 0x1000 == 0
    &&& vaddr + count * 0x1000 <= 0xffc00000
    &&& paddr + count * 0x1000 <= 0x1_0000_0000
    &&& mem.next_free() + 0x1000 * missing_tables(mem@[dir], vaddr / 0x400000, (vaddr + (count - 1) * 0x1000) / 0x400000)
        <= mem.limit()
}

/// What `map_memory_for_task` needs of a task: a request that its memory map
/// can compute, and room in the page tables for a direct mapping
pub open spec fn map_ok(mem: &PhysicalMemory, t: Task, addr: Option<VirtualAddress>, size: u32, backing: MemoryBacking) -> bool {
    &&& t.memory_mapping.wf()
    &&& map_request_ok(t.memory_mapping@, 0xc0000000, addr, size)
    &&& match (backing, map_placement(t.memory_mapping@, 0xc0000000, addr, size)) {
        (MemoryBacking::Direct(p), Ok(a)) => direct_map_ok(mem, t.page_directory.0, a, p.0, size),
        _ => true,
    }
}

/// Create a memory mapping in a task's memory map. A mapping directly onto
/// physical memory is entered in the task's page directory at once, every
/// page readable and writable by user code, and each of its frames gains a
/// reference; other mappings are filled in as their pages are touched.
pub fn map_memory_for_task(
    tasks: &mut TaskMap,
    mem: &mut PhysicalMemory,
    frames: &mut FrameTracker,
    task_id: TaskID,
    addr: Option<VirtualAddress>,
    size: u32,
    backing: MemoryBacking,
) -> (r: Result<VirtualAddress, MemMapError>)
    requires
        old(tasks).wf(),
        old(mem).wf(),
        old(tasks)@.contains_key(task_id) ==> map_ok(old(mem), old(tasks)@[task_id], addr, size, backing),
    ensures
        final(tasks).wf(),
        final(tasks).next_id() == old(tasks).next_id(),
        final(mem).wf(),
        final(mem).limit() == old(mem).limit(),
        !old(tasks)@.contains_key(task_id) ==> {
            &&& r == Err::<VirtualAddress, MemMapError>(MemMapError::NoTask)
            &&& final(tasks)@ == old(tasks)@
            &&& final(mem)@ == old(mem)@
            &&& final(mem).next_free() == old(mem).next_free()
            &&& final(frames)@ == old(frames)@
        },
        old(tasks)@.contains_key(task_id) ==> {
            let t = old(tasks)@[task_id];
            let dir = t.page_directory.0;
            match r {
                Err(e) => {
                    &&& map_placement(t.memory_mapping@, 0xc0000000, addr, size) == Err::<int, MemMapError>(e)
                    &&& final(tasks)@ == old(tasks)@
                    &&& final(mem)@ == old(mem)@
                    &&& final(mem).next_free() == old(mem).next_free()
                    &&& final(frames)@ == old(frames)@
                },
                Ok(a) => {
                    &&& map_placement(t.memory_mapping@, 0xc0000000, addr, size) == Ok::<int, MemMapError>(a.0 as int)
                    &&& final(tasks)@ == old(tasks)@.insert(task_id, Task { memory_mapping: final(tasks)@[task_id].memory_mapping, ..t })
                    &&& final(tasks)@[task_id].memory_mapping.wf()
                    &&& inserted(
                        t.memory_mapping@,
                        final(tasks)@[task_id].memory_mapping@,
                        MemMappedRegion { address: a, size, backed_by: backing },
                    )
                    &&& match backing {
                        MemoryBacking::Direct(p) => {
                            let end = a.0 + pages_for(size) * 0x1000;
                            &&& is_directory(final(mem)@, dir)
                            &&& final(mem).next_free() == old(mem).next_free() + 0x1000 * missing_tables(
                                old(mem)@[dir],
                                a.0 as int / 0x400000,
                                (a.0 + (pages_for(size) - 1) * 0x1000) / 0x400000,
                            )
                            &&& forall|v: u32| a.0 <= v < end ==> #[trigger] translate(final(mem)@, dir, v) == Some(
                                (range_frame(p.0, a.0, v) + v % 0x1000) as u32,
                            )
                            &&& forall|v: u32| dir_index(v) < 1023 && !(a.0 <= v < end)
                                ==> #[trigger] translate(final(mem)@, dir, v) == translate(old(mem)@, dir, v)
                            &&& final(frames)@ == add_references(old(frames)@, p.0, pages_for(size))
                        },
                        _ => {
                            &&& final(mem)@ == old(mem)@
                            &&& final(mem).next_free() == old(mem).next_free()
                            &&& final(frames)@ == old(frames)@
                        },
                    }
                },
            }
        },
{
    proof { old(tasks).lemma_keys_are_ids(); }
    let mut task = match tasks.take_task(task_id) {
        Some(t) => t,
        None => return Err(MemMapError::NoTask),
    };
    let result = task.memory_mapping.map_memory(addr, size, backing);
    let dir = task.page_directory;
    tasks.insert_task(task);
    proof {
        assert(tasks@ =~= old(tasks)@.insert(task_id, Task { memory_mapping: tasks@[task_id].memory_mapping, ..old(tasks)@[task_id] }));
    }
    let mapped_to = match result {
        Ok(a) => a,
        Err(e) => {
            proof {
                assert(tasks@ =~= old(tasks)@);
            }
            return Err(e);
        },
    };
    if let MemoryBacking::Direct(paddr) = backing {
        let flags = PermissionFlags::new(PermissionFlags::USER_ACCESS | PermissionFlags::WRITE_ACCESS);
        let count: usize = ((size as u64 + 0xfff) / 0x1000) as usize;
        assert(count == pages_for(size));
        map_range(mem, dir.0, mapped_to.0, paddr.0, count, flags);
        let ghost counts0 = frames@;
        let mut offset: u32 = 0;
        let ghost mut j: nat = 0;
        while offset < size
            invariant
                offset == j * 0x1000,
                j <= pages_for(size),
                j < pages_for(size) <==> offset < size,
                size <= 0xfffff000,
                paddr.0 + pages_for(size) * 0x1000 <= 0x1_0000_0000,
                frames@ == add_references(counts0, paddr.0, j),
            decreases size as int + 0x1000 - offset,
        {
            frames.maybe_add_frame_reference(PhysicalAddress::new(paddr.0 + offset));
            proof {
                assert((j + 1 < pages_for(size)) <==> (offset + 0x1000 < size)) by (nonlinear_arith)
                    requires offset == j * 0x1000, j < pages_for(size), pages_for(size) == (size + 0xfff) / 0x1000;
                j = j + 1;
            }
            offset = offset + 0x1000;
        }
        proof {
            assert(j == pages_for(size)) by (nonlinear_arith)
                requires offset == j * 0x1000, offset >= size, j <= pages_for(size), pages_for(size) == (size + 0xfff) / 0x1000,
                    (j < pages_for(size) <==> offset < size);
        }
    }
    Ok(mapped_to)
}

/// Create a memory mapping for the current task
pub fn map_memory(
    tasks: &mut TaskMap,
    mem: &mut PhysicalMemory,
    frames: &mut FrameTracker,
    current: TaskID,
    addr: Option<VirtualAddress>,
    size: u32,
    backing: MemoryBacking,
) -> (r: Result<VirtualAddress, MemMapError>)
    requires
        old(tasks).wf(),
        old(mem).wf(),
        old(tasks)@.contains_key(current) ==> map_ok(old(mem), old(tasks)@[current], addr, size, backing),
    ensures
        final(tasks).wf(),
        final(tasks).next_id() == old(tasks).next_id(),
        final(mem).wf(),
        final(mem).limit() == old(mem).limit(),
        !old(tasks)@.contains_key(current) ==> {
            &&& r == Err::<VirtualAddress, MemMapError>(MemMapError::NoTask)
            &&& final(tasks)@ == old(tasks)@
            &&& final(mem)@ == old(mem)@
            &&& final(mem).next_free() == old(mem).next_free()
            &&& final(frames)@ == old(frames)@
        },
        old(tasks)@.contains_key(current) ==> {
            let t = old(tasks)@[current];
            match r {
                Err(e) => {
                    &&& map_placement(t.memory_mapping@, 0xc0000000, addr, size) == Err::<int, MemMapError>(e)
                    &&& final(tasks)@ == old(tasks)@
                    &&& final(mem)@ == old(mem)@
                    &&& final(frames)@ == old(frames)@
                },
                Ok(a) => {
                    &&& map_placement(t.memory_mapping@, 0xc0000000, addr, size) == Ok::<int, MemMapError>(a.0 as int)
                    &&& final(tasks)@ == old(tasks)@.insert(current, Task { memory_mapping: final(tasks)@[current].memory_mapping, ..t })
                    &&& final(tasks)@[current].memory_mapping.wf()
                    &&& inserted(
                        t.memory_mapping@,
                        final(tasks)@[current].memory_mapping@,
                        MemMappedRegion { address: a, size, backed_by: backing },
                    )
                    &&& !(backing is Direct) ==> final(mem)@ == old(mem)@ && final(mem).next_free() == old(mem).next_free()
                        && final(frames)@ == old(frames)@
                },
            }
        },
{
    map_memory_for_task(tasks, mem, frames, current, addr, size, backing)
}

/// Where a DMA mapping of `page_count` pages lands in a memory map: the top of
/// the highest gap below the kernel's region that is large enough
pub open spec fn dma_address(s: Seq<MemMappedRegion>, page_count: int) -> Option<int> {
    free_space_below(s, 0xc0000000, page_count * 0x1000)
}

/// What allocating a DMA range of `page_count` pages needs of the current
/// task: a request its memory map can place, and enough free frames for the
/// pages and their tables
pub open spec fn dma_ok(mem: &PhysicalMemory, t: Task, page_count: int) -> bool {
    let size = page_count * 0x1000;
    let a = dma_address(t.memory_mapping@, page_count);
    &&& t.memory_mapping.wf()
    &&& size <= u32::MAX
    &&& map_request_ok(t.memory_mapping@, 0xc0000000, None, size as u32)
    &&& is_directory(mem@, t.page_directory.0)
    &&& page_count > 0 && a is Some ==> {
        let a = a->0;
        &&& a % 0x1000 == 0
        &&& a + size <= 0xffc00000
        &&& mem.next_free() + 0x1000 * (page_count + missing_tables(
            mem@[t.page_directory.0],
            a / 0x400000,
            (a + (page_count - 1) * 0x1000) / 0x400000,
        )) <= mem.limit()
    }
}

/// A range of memory for direct memory access: virtual pages backed by
/// physically consecutive frames
pub struct DmaRange {
    pub vaddr_start: VirtualAddress,
    pub paddr_start: PhysicalAddress,
    pub page_count: usize,
}

/// The byte length of a DMA range for `bytes` bytes: rounded up to a whole
/// number of pages
pub open spec fn dma_length(bytes: usize) -> int {
    if bytes & 0xfff != 0 {
        (bytes & 0xfffff000) + 0x1000
    } else {
        bytes as int
    }
}

/// A DMA range is its byte length rounded up to whole pages, by less than a page.
pub proof fn law_dma_length(bytes: usize)
    requires
        bytes <= 0xfffff000,
    ensures
        dma_length(bytes) % 0x1000 == 0,
        bytes <= dma_length(bytes) < bytes + 0x1000,
{
    assert(bytes & 0xfff == bytes % 0x1000 && bytes & 0xfffff000 == bytes - bytes % 0x1000) by (bit_vector)
        requires
            bytes <= 0xfffff000usize,
    ;
    let b = bytes as int;
    assert((b - b % 0x1000) % 0x1000 == 0 && (b - b % 0x1000 + 0x1000) % 0x1000 == 0) by {
        vstd::arithmetic::div_mod::lemma_fundamental_div_mod(b, 0x1000);
        vstd::arithmetic::div_mod::lemma_mod_multiples_basic(b / 0x1000, 0x1000);
        vstd::arithmetic::div_mod::lemma_mod_multiples_basic(b / 0x1000 + 1, 0x1000);
        vstd::arithmetic::mul::lemma_mul_is_distributive_add(0x1000, b / 0x1000, 1);
    }
}

impl DmaRange {
    /// A DMA range of `page_count` pages, mapped into the current task and
    /// backed at once by consecutive frames
    pub fn with_page_count(
        tasks: &mut TaskMap,
        mem: &mut PhysicalMemory,
        frames: &mut FrameTracker,
        files: &FilePageTracker,
        current: TaskID,
        page_count: usize,
    ) -> (r: Result<Self, MemMapError>)
        requires
            old(tasks).wf(),
            old(mem).wf(),
            page_count * 0x1000 <= u32::MAX,
            old(tasks)@.contains_key(current) ==> dma_ok(old(mem), old(tasks)@[current], page_count as int),
        ensures
            final(tasks).wf(),
            final(mem).wf(),
            !old(tasks)@.contains_key(current) ==> r == Err::<Self, MemMapError>(MemMapError::NoTask),
            old(tasks)@.contains_key(current) ==> {
                let t = old(tasks)@[current];
                let size = (page_count * 0x1000) as u32;
                match r {
                    Err(e) => map_placement(t.memory_mapping@, 0xc0000000, None, size) == Err::<int, MemMapError>(e),
                    Ok(d) => {
                        &&& map_placement(t.memory_mapping@, 0xc0000000, None, size) == Ok::<int, MemMapError>(d.vaddr_start.0 as int)
                        &&& d.page_count == page_count
                        &&& dma_address(t.memory_mapping@, page_count as int) == Some(d.vaddr_start.0 as int)
                        &&& d.paddr_start.0 == old(mem).next_free()
                        &&& forall|v: u32| d.vaddr_start.0 <= v < d.vaddr_start.0 + page_count * 0x1000
                            ==> #[trigger] translate(final(mem)@, t.page_directory.0, v) == Some(
                            (d.paddr_start.0 + (v - d.vaddr_start.0)) as u32,
                        )
                    },
                }
            },
    {
        let size = page_count as u32 * 0x1000;
        let vaddr_start = match map_memory(tasks, mem, frames, current, None, size, MemoryBacking::IsaDma) {
            Ok(a) => a,
            Err(e) => return Err(e),
        };
        proof { tasks.lemma_keys_are_ids(); }
        let task = tasks.get_task(current).unwrap();
        let ghost region = MemMappedRegion { address: vaddr_start, size, backed_by: MemoryBacking::IsaDma };
        proof {
            let k = choose|k: int| 0 <= k <= old(tasks)@[current].memory_mapping@.len()
                && task.memory_mapping@ == old(tasks)@[current].memory_mapping@.insert(k, region);
            assert(task.memory_mapping@[k] == region);
            assert(in_region(region, vaddr_start.0));
            lemma_containing_region(task.memory_mapping@, vaddr_start.0, k);
            assert(((size + 0xfff) / 0x1000) as int == page_count) by (nonlinear_arith)
                requires size == page_count * 0x1000;
            assert(dir_index(vaddr_start.0) < 1023) by (nonlinear_arith)
                requires vaddr_start.0 + size <= 0xffc00000, size > 0;
        }
        let paddr_start = match page_on_demand(mem, task.page_directory, frames, files, &task.memory_mapping, vaddr_start) {
            PageFault::Resolved(p) => p,
            _ => return Err(MemMapError::MappingFailed),
        };
        Ok(DmaRange { vaddr_start, paddr_start, page_count })
    }

    /// A DMA range holding at least `bytes` bytes, rounded up to whole pages
    pub fn for_byte_length(
        tasks: &mut TaskMap,
        mem: &mut PhysicalMemory,
        frames: &mut FrameTracker,
        files: &FilePageTracker,
        current: TaskID,
        bytes: usize,
    ) -> (r: Result<Self, MemMapError>)
        requires
            old(tasks).wf(),
            old(mem).wf(),
            bytes <= u32::MAX,
            dma_length(bytes) <= u32::MAX,
            old(tasks)@.contains_key(current) ==> dma_ok(old(mem), old(tasks)@[current], dma_length(bytes) / 0x1000),
        ensures
            final(tasks).wf(),
            final(mem).wf(),
            !old(tasks)@.contains_key(current) ==> r == Err::<Self, MemMapError>(MemMapError::NoTask),
            old(tasks)@.contains_key(current) && bytes == 0 ==> r == Err::<Self, MemMapError>(MemMapError::InvalidSize),
            old(tasks)@.contains_key(current) ==> {
                let t = old(tasks)@[current];
                let pages = dma_length(bytes) / 0x1000;
                match r {
                    Err(e) => map_placement(t.memory_mapping@, 0xc0000000, None, (pages * 0x1000) as u32) == Err::<int, MemMapError>(e),
                    Ok(d) => {
                        &&& map_placement(t.memory_mapping@, 0xc0000000, None, (pages * 0x1000) as u32) == Ok::<int, MemMapError>(d.vaddr_start.0 as int)
                        &&& d.page_count == pages
                        &&& d.page_count > 0
                        &&& d.page_count * 0x1000 >= bytes > (d.page_count - 1) * 0x1000
                        &&& dma_address(t.memory_mapping@, pages) == Some(d.vaddr_start.0 as int)
                        &&& d.paddr_start.0 == old(mem).next_free()
                        &&& forall|v: u32| d.vaddr_start.0 <= v < d.vaddr_start.0 + pages * 0x1000
                            ==> #[trigger] translate(final(mem)@, t.page_directory.0, v) == Some(
                            (d.paddr_start.0 + (v - d.vaddr_start.0)) as u32,
                        )
                    },
                }
            },
    {
        let mut length = bytes;
        if length & 0xfff != 0 {
            length = length & 0xfffff000;
            length = length + 0x1000;
        }
        let page_count = length / 0x1000;
        proof {
            let b = bytes;
            assert(b & 0xfff == b % 4096 && (b <= 0xffffffff ==> b & 0xfffff000 == b - b % 4096)) by (bit_vector);
            let q = b / 4096;
            let rem = b % 4096;
            assert(b == 4096 * q + rem) by (nonlinear_arith) requires q == b / 4096, rem == b % 4096;
            if rem == 0 {
                assert(dma_length(bytes) == 4096 * q);
                assert((4096 * q) / 4096 == q) by (nonlinear_arith);
                assert(dma_length(bytes) / 0x1000 == q);
            } else {
                assert(dma_length(bytes) == 4096 * (q + 1));
                assert((4096 * (q + 1)) / 4096 == q + 1) by (nonlinear_arith);
                assert(dma_length(bytes) / 0x1000 == q + 1);
            }
        }
        Self::with_page_count(tasks, mem, frames, files, current, page_count)
    }
}

/// Gives the region of a task that contains `addr` a new backing, and returns the backing it
/// had.
pub fn remap_memory_for_task(
    tasks: &mut TaskMap,
    task_id: TaskID,
    addr: VirtualAddress,
    backing: MemoryBacking,
) -> (r: Result<MemoryBacking, MemMapError>)
    requires
        old(tasks).wf(),
        old(tasks)@.contains_key(task_id) ==> old(tasks)@[task_id].memory_mapping.wf(),
    ensures
        final(tasks).wf(),
        final(tasks).next_id() == old(tasks).next_id(),
        !old(tasks)@.contains_key(task_id) ==> r == Err::<MemoryBacking, MemMapError>(
            MemMapError::NoTask,
        ) && final(tasks)@ == old(tasks)@,
        old(tasks)@.contains_key(task_id) ==> {
            let t = old(tasks)@[task_id];
            let i = crate::memory::first_containing(t.memory_mapping@, addr.0 as int, 0);
            if i >= t.memory_mapping@.len() {
                &&& r == Err::<MemoryBacking, MemMapError>(MemMapError::NotMapped)
                &&& final(tasks)@ == old(tasks)@
            } else {
                &&& r == Ok::<MemoryBacking, MemMapError>(t.memory_mapping@[i].backed_by)
                &&& final(tasks)@ == old(tasks)@.insert(
                    task_id,
                    Task { memory_mapping: final(tasks)@[task_id].memory_mapping, ..t },
                )
                &&& final(tasks)@[task_id].memory_mapping.wf()
                &&& final(tasks)@[task_id].memory_mapping@ == t.memory_mapping@.update(
                    i,
                    MemMappedRegion { backed_by: backing, ..t.memory_mapping@[i] },
                )
            }
        },
{
    proof { old(tasks).lemma_keys_are_ids(); }
    let mut task = match tasks.take_task(task_id) {
        Some(t) => t,
        None => return Err(MemMapError::NoTask),
    };
    let result = match task.memory_mapping.replace_backing(&addr, backing) {
        Some(previous) => Ok(previous),
        None => Err(MemMapError::NotMapped),
    };
    tasks.insert_task(task);
    proof {
        assert(tasks@ =~= old(tasks)@.insert(task_id, Task { memory_mapping: tasks@[task_id].memory_mapping, ..old(tasks)@[task_id] }));
        if result is Err {
            assert(tasks@ =~= old(tasks)@);
        }
    }
    result
}

} // verus!
