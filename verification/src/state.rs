//! The state of a single task: its identity, run state, kernel stack, memory
//! map and message queue, and the transitions between run states.
use vstd::prelude::*;
use crate::id::TaskID;
use crate::address::PhysicalAddress;
use crate::memory::MappedMemory;
use crate::messaging::{Message, MessagePacket, MessageQueue, drop_expired, EnqueuedMessage, has_live};
use crate::files::CurrentDrive;
use crate::args::ExecArgs;
use crate::stack::{KernelStack, StackAllocator, stack_base, STACK_SIZE_IN_BYTES};

verus! {

/// The memory map of a task: everything below the kernel's higher half
pub type TaskMemory = MappedMemory<0xc0000000>;

/// A task may block on a variety of hardware or software conditions. The
/// BlockType describes why the task is blocked, and how it can be resumed.
#[derive(Copy, Clone, Debug, PartialEq, Eq, Structural)]
pub enum BlockType {
    /// Sleeping for a fixed period of time, stored in the timeout
    Sleep,
    /// Waiting for a Message from another task
    Message,
    /// Waiting for a Child Task to return
    WaitForChild(TaskID),
    /// Blocked on async IO
    IO,
}

/// RunState represents the current state of the task, and determines how the
/// task scheduler treats it.
#[derive(Copy, Clone, Debug, PartialEq, Eq, Structural)]
pub enum RunState {
    /// Created, but not ready to be executed
    Uninitialized,
    /// Can be safely run by the scheduler
    Running,
    /// Has ended, but still needs to be cleaned up
    Terminated,
    /// Blocked on some condition, with an optional timeout in milliseconds
    Blocked(Option<u32>, BlockType),
    /// Resuming from a Blocked state with a return code
    Resuming(u32),
}

/// The little-endian bytes of a 32-bit value
pub open spec fn le_bytes(v: u32) -> Seq<u8> {
    seq![(v % 0x100) as u8, ((v / 0x100) % 0x100) as u8, ((v / 0x10000) % 0x100) as u8, ((v / 0x1000000) % 0x100) as u8]
}

/// The bytes pushed for a word read back as the word, least significant first.
pub proof fn law_le_bytes_read_back(v: u32)
    ensures
        le_bytes(v).len() == 4,
        le_bytes(v)[0] + le_bytes(v)[1] * 0x100 + le_bytes(v)[2] * 0x10000 + le_bytes(v)[3] * 0x1000000 == v,
{
    let x = v as int;
    let b0 = x % 0x100;
    let b1 = (x / 0x100) % 0x100;
    let b2 = (x / 0x10000) % 0x100;
    let b3 = (x / 0x1000000) % 0x100;
    vstd::arithmetic::div_mod::lemma_fundamental_div_mod(x, 0x100);
    vstd::arithmetic::div_mod::lemma_fundamental_div_mod(x / 0x100, 0x100);
    vstd::arithmetic::div_mod::lemma_fundamental_div_mod(x / 0x10000, 0x100);
    vstd::arithmetic::div_mod::lemma_div_denominator(x, 0x100, 0x100);
    vstd::arithmetic::div_mod::lemma_div_denominator(x, 0x10000, 0x100);
    assert(x / 0x1000000 < 0x100);
    assert(b3 == x / 0x1000000);
    assert(x == b0 + b1 * 0x100 + b2 * 0x10000 + b3 * 0x1000000) by (nonlinear_arith)
        requires
            x == 0x100 * (x / 0x100) + b0,
            x / 0x100 == 0x100 * ((x / 0x100) / 0x100) + b1,
            (x / 0x100) / 0x100 == x / 0x10000,
            x / 0x10000 == 0x100 * ((x / 0x10000) / 0x100) + b2,
            (x / 0x10000) / 0x100 == x / 0x1000000,
            b3 == x / 0x1000000,
    ;
}

/// The address just below the top four bytes of a stack, where the stack
/// pointer of a fresh task starts
pub open spec fn initial_stack_pointer(stack: KernelStack) -> int {
    stack.base + stack.bytes@.len() - 4
}

/// The run state after a timer advance of `ms` milliseconds: a blocked state
/// with a timeout counts down, and runs out into Running.
pub open spec fn timeout_state(state: RunState, ms: u32) -> RunState {
    match state {
        RunState::Blocked(Some(t), block_type) => if t <= ms {
            RunState::Running
        } else {
            RunState::Blocked(Some((t - ms) as u32), block_type)
        },
        _ => state,
    }
}

/// The state of a task after its child `child` exits with `code`: a task
/// waiting on that child resumes with the code
pub open spec fn after_child_exit(state: RunState, child: TaskID, code: u32) -> RunState {
    if state matches RunState::Blocked(_, BlockType::WaitForChild(w)) && w == child {
        RunState::Resuming(code)
    } else {
        state
    }
}

pub struct Task {
    /// The unique identifier for the Task
    pub id: TaskID,
    /// The ID of the parent Task
    pub parent_id: TaskID,
    /// The current execution state of the task
    pub state: RunState,
    /// The kernel stack for the task, used when it executes kernel-mode code
    pub kernel_stack: Option<KernelStack>,
    /// The kernel stack pointer saved while the task is swapped out
    pub stack_pointer: usize,
    /// Physical address of the task's page directory
    pub page_directory: PhysicalAddress,
    /// All of the memory mappings for the Task
    pub memory_mapping: TaskMemory,
    /// Messages that have been sent to the task
    pub message_queue: MessageQueue,
    /// The current drive for the task
    pub current_drive: CurrentDrive,
    /// The path of the current working directory
    pub working_dir: String,
    /// The name of the program the task runs
    pub filename: String,
    /// The arguments passed to the program
    pub args: ExecArgs,
}

impl Task {
    pub fn new(id: TaskID, parent_id: TaskID, stack: KernelStack) -> (r: Self)
        requires
            stack.bytes@.len() >= 4,
            stack.base + stack.bytes@.len() <= usize::MAX,
        ensures
            r.id == id,
            r.parent_id == parent_id,
            r.state == RunState::Uninitialized,
            r.kernel_stack == Some(stack),
            r.stack_pointer == initial_stack_pointer(stack),
            r.page_directory.0 == 0,
            r.memory_mapping@.len() == 0,
            r.memory_mapping.wf(),
            r.message_queue@.len() == 0,
            r.current_drive.driver_id.0 == 0,
            r.working_dir@.len() == 0,
            r.filename@.len() == 0,
            r.args.wf(),
            r.args.args().len() == 0,
    {
        let stack_pointer = stack.base + stack.bytes.len() - 4;
        Task {
            id,
            parent_id,
            state: RunState::Uninitialized,
            kernel_stack: Some(stack),
            stack_pointer,
            page_directory: PhysicalAddress::new(0),
            memory_mapping: MappedMemory::new(),
            message_queue: MessageQueue::new(),
            current_drive: CurrentDrive::empty(),
            working_dir: String::new(),
            filename: String::new(),
            args: ExecArgs::new(),
        }
    }

    /// The first task: it runs on the initial kernel stack, is its own
    /// parent, and is immediately runnable.
    pub fn create_initial_task(stacks: &mut StackAllocator) -> (r: Self)
        requires
            STACK_SIZE_IN_BYTES <= old(stacks).top(),
        ensures
            r.id.0 == 0,
            r.parent_id.0 == 0,
            r.state == RunState::Running,
            r.kernel_stack matches Some(s) && s.base == stack_base(old(stacks).top() as int, 0)
                && s.bytes@.len() == STACK_SIZE_IN_BYTES && r.stack_pointer == initial_stack_pointer(s),
            final(stacks).bitmap() == old(stacks).bitmap().push(1),
            final(stacks).top() == old(stacks).top(),
    {
        let id = TaskID::new(0);
        let stack = stacks.create_initial_stack();
        let mut task = Self::new(id, id, stack);
        task.make_runnable();
        task
    }

    pub fn get_kernel_stack(&self) -> (r: &KernelStack)
        requires
            self.kernel_stack is Some,
        ensures
            self.kernel_stack == Some(*r),
    {
        self.kernel_stack.as_ref().unwrap()
    }


    pub fn get_kernel_stack_mut(&mut self) -> (r: &mut KernelStack)
        requires
            old(self).kernel_stack is Some,
        ensures
            *r == old(self).kernel_stack->0,
            *final(self) == (Task { kernel_stack: Some(*final(r)), ..*old(self) }),
    {
        self.kernel_stack.as_mut().unwrap()
    }

    /// Advance a blocked task's timeout by `ms` milliseconds. A task whose
    /// timeout runs out becomes runnable again.
    pub fn update_timeout(&mut self, ms: u32)
        ensures
            *final(self) == (Task { state: timeout_state(old(self).state, ms), ..*old(self) }),
    {
        match self.state {
            RunState::Blocked(Some(t), block_type) => {
                self.state = if t <= ms {
                    RunState::Running
                } else {
                    RunState::Blocked(Some(t - ms), block_type)
                };
            },
            _ => (),
        }
    }

    /// Block a running task for `timeout_ms` milliseconds
    pub fn sleep(&mut self, timeout_ms: u32)
        requires
            old(self).state == RunState::Running,
        ensures
            *final(self) == (Task { state: RunState::Blocked(Some(timeout_ms), BlockType::Sleep), ..*old(self) }),
    {
        self.state = RunState::Blocked(Some(timeout_ms), BlockType::Sleep);
    }

    /// Read the oldest message that has not expired. The second element of
    /// the result tells whether more messages are waiting.
    pub fn read_message(&mut self, current_ticks: u32) -> (r: (Option<MessagePacket>, bool))
        ensures
            ({
                let live = drop_expired(old(self).message_queue@, current_ticks);
                &&& live.len() == 0 ==> r.0 == None::<MessagePacket> && final(self).message_queue@ == live
                &&& live.len() > 0 ==> r.0 == Some(live[0].packet) && final(self).message_queue@ == live.drop_first()
                &&& r.1 == has_live(final(self).message_queue@, current_ticks)
            }),
            *final(self) == (Task { message_queue: final(self).message_queue, ..*old(self) }),
    {
        self.message_queue.read(current_ticks)
    }

    /// Read a message, or block the task until one arrives when the queue
    /// holds none.
    pub fn read_message_blocking(&mut self, current_ticks: u32, timeout: Option<u32>) -> (r: (Option<MessagePacket>, bool))
        ensures
            ({
                let live = drop_expired(old(self).message_queue@, current_ticks);
                &&& live.len() == 0 ==> r == (None::<MessagePacket>, false) && final(self).message_queue@ == live
                    && final(self).state == RunState::Blocked(timeout, BlockType::Message)
                &&& live.len() > 0 ==> r.0 == Some(live[0].packet) && final(self).message_queue@ == live.drop_first()
                    && r.1 == has_live(final(self).message_queue@, current_ticks) && final(self).state == old(self).state
            }),
            *final(self) == (Task { message_queue: final(self).message_queue, state: final(self).state, ..*old(self) }),
    {
        let (first_read, has_more) = self.message_queue.read(current_ticks);
        if first_read.is_some() {
            return (first_read, has_more);
        }
        self.state = RunState::Blocked(timeout, BlockType::Message);
        (None, false)
    }

    /// Place a Message in the task's queue. If the task is blocked on reading
    /// the message queue, it resumes running. The message is valid until
    /// `expiration_ticks`.
    pub fn receive_message(&mut self, current_ticks: u32, from: TaskID, message: Message, expiration_ticks: u32)
        ensures
            final(self).message_queue@ == drop_expired(old(self).message_queue@, current_ticks).push(
                EnqueuedMessage { packet: MessagePacket { from, message }, expiration_ticks },
            ),
            final(self).state == (if old(self).state matches RunState::Blocked(_, BlockType::Message) {
                RunState::Running
            } else {
                old(self).state
            }),
            *final(self) == (Task { message_queue: final(self).message_queue, state: final(self).state, ..*old(self) }),
    {
        self.message_queue.add(from, message, current_ticks, expiration_ticks);
        match self.state {
            RunState::Blocked(_, BlockType::Message) => {
                self.state = RunState::Running;
            },
            _ => (),
        }
    }

    /// Wait for a child task with the specified ID to return
    pub fn wait_for_child(&mut self, id: TaskID, timeout: Option<u32>)
        ensures
            *final(self) == (Task { state: RunState::Blocked(timeout, BlockType::WaitForChild(id)), ..*old(self) }),
    {
        self.state = RunState::Blocked(timeout, BlockType::WaitForChild(id));
    }

    pub fn wait_for_io(&mut self, timeout: Option<u32>)
        ensures
            *final(self) == (Task { state: RunState::Blocked(timeout, BlockType::IO), ..*old(self) }),
    {
        self.state = RunState::Blocked(timeout, BlockType::IO);
    }

    /// Notify the task that a child task has terminated with an exit code. A
    /// task waiting on that child resumes with the code.
    pub fn child_terminated(&mut self, id: TaskID, exit_code: u32)
        ensures
            *final(self) == (Task { state: after_child_exit(old(self).state, id, exit_code), ..*old(self) }),
    {
        let waiting_on = match self.state {
            RunState::Blocked(_, BlockType::WaitForChild(wait_id)) => wait_id,
            _ => return,
        };
        if id == waiting_on {
            self.state = RunState::Resuming(exit_code);
        }
    }

    /// A task blocked on IO becomes runnable again
    pub fn io_complete(&mut self)
        ensures
            *final(self) == (Task {
                state: if old(self).state matches RunState::Blocked(_, BlockType::IO) {
                    RunState::Running
                } else {
                    old(self).state
                },
                ..*old(self)
            }),
    {
        match self.state {
            RunState::Blocked(_, BlockType::IO) => {
                self.state = RunState::Running;
            },
            _ => return,
        }
    }

    /// A resuming task becomes runnable, and hands back its return code; any
    /// other task is left as it is and 0 is returned.
    pub fn resume_from_wait(&mut self) -> (r: u32)
        ensures
            match old(self).state {
                RunState::Resuming(code) => r == code && *final(self) == (Task { state: RunState::Running, ..*old(self) }),
                _ => r == 0 && *final(self) == *old(self),
            },
    {
        match self.state {
            RunState::Resuming(code) => {
                self.state = RunState::Running;
                return code;
            },
            _ => 0,
        }
    }

    pub fn reset_stack_pointer(&mut self)
        requires
            old(self).kernel_stack matches Some(s) && s.bytes@.len() >= 4 && s.base + s.bytes@.len() <= usize::MAX,
        ensures
            *final(self) == (Task { stack_pointer: initial_stack_pointer(old(self).kernel_stack->0) as usize, ..*old(self) }),
    {
        let pointer = match &self.kernel_stack {
            Some(stack) => stack.base + stack.bytes.len() - 4,
            None => 0,
        };
        self.stack_pointer = pointer;
    }

    /// Push a u8 value onto the kernel stack
    pub fn stack_push_u8(&mut self, value: u8)
        requires
            old(self).kernel_stack matches Some(s) && s.base < old(self).stack_pointer <= s.base + s.bytes@.len(),
        ensures
            final(self).stack_pointer == old(self).stack_pointer - 1,
            final(self).kernel_stack matches Some(s) && s.base == old(self).kernel_stack->0.base && s.bytes@
                == old(self).kernel_stack->0.bytes@.update(final(self).stack_pointer - s.base, value),
            *final(self) == (Task { stack_pointer: final(self).stack_pointer, kernel_stack: final(self).kernel_stack, ..*old(self) }),
    {
        self.stack_pointer = self.stack_pointer - 1;
        let esp = self.stack_pointer;
        match &mut self.kernel_stack {
            Some(stack) => {
                let offset = esp - stack.base;
                stack.bytes.set(offset, value);
            },
            None => {},
        }
    }

    pub fn stack_push_u32(&mut self, value: u32)
        requires
            old(self).kernel_stack matches Some(s) && s.base + 4 <= old(self).stack_pointer <= s.base + s.bytes@.len(),
        ensures
            final(self).stack_pointer == old(self).stack_pointer - 4,
            final(self).kernel_stack matches Some(s) && s.base == old(self).kernel_stack->0.base
                && s.bytes@.len() == old(self).kernel_stack->0.bytes@.len()
                && s.bytes@.subrange(final(self).stack_pointer - s.base, final(self).stack_pointer - s.base + 4) == le_bytes(value)
                && (forall|i: int| 0 <= i < s.bytes@.len() && !(final(self).stack_pointer - s.base <= i < final(self).stack_pointer - s.base + 4)
                    ==> s.bytes@[i] == old(self).kernel_stack->0.bytes@[i]),
            *final(self) == (Task { stack_pointer: final(self).stack_pointer, kernel_stack: final(self).kernel_stack, ..*old(self) }),
    {
        self.stack_pointer = self.stack_pointer - 4;
        let esp = self.stack_pointer;
        match &mut self.kernel_stack {
            Some(stack) => {
                let offset = esp - stack.base;
                let b0 = (value & 0x000000ff) as u8;
                let b1 = ((value & 0x0000ff00) >> 8) as u8;
                let b2 = ((value & 0x00ff0000) >> 16) as u8;
                let b3 = ((value & 0xff000000) >> 24) as u8;
                assert(b0 == (value % 0x100) as u8 && b1 == ((value / 0x100) % 0x100) as u8
                    && b2 == ((value / 0x10000) % 0x100) as u8 && b3 == ((value / 0x1000000) % 0x100) as u8) by (bit_vector)
                    requires
                        b0 == (value & 0x000000ff) as u8,
                        b1 == ((value & 0x0000ff00) >> 8) as u8,
                        b2 == ((value & 0x00ff0000) >> 16) as u8,
                        b3 == ((value & 0xff000000) >> 24) as u8;
                stack.bytes.set(offset + 0, b0);
                stack.bytes.set(offset + 1, b1);
                stack.bytes.set(offset + 2, b2);
                stack.bytes.set(offset + 3, b3);
                assert(stack.bytes@.subrange(offset as int, offset + 4) =~= le_bytes(value));
            },
            None => {},
        }
    }

    /// Push the seven zeroed general-purpose registers that the entry code
    /// pops when a task first runs
    pub fn initialize_registers(&mut self)
        requires
            old(self).kernel_stack matches Some(s) && s.base + 28 <= old(self).stack_pointer <= s.base + s.bytes@.len(),
        ensures
            final(self).stack_pointer == old(self).stack_pointer - 28,
            final(self).kernel_stack matches Some(s) && s.base == old(self).kernel_stack->0.base
                && s.bytes@.len() == old(self).kernel_stack->0.bytes@.len()
                && (forall|i: int| final(self).stack_pointer - s.base <= i < old(self).stack_pointer - s.base ==> s.bytes@[i] == 0)
                && (forall|i: int| 0 <= i < s.bytes@.len() && !(final(self).stack_pointer - s.base <= i < old(self).stack_pointer - s.base)
                    ==> s.bytes@[i] == old(self).kernel_stack->0.bytes@[i]),
            *final(self) == (Task { stack_pointer: final(self).stack_pointer, kernel_stack: final(self).kernel_stack, ..*old(self) }),
    {
        let ghost sp0 = self.stack_pointer;
        let ghost bytes0 = self.kernel_stack->0.bytes@;
        let mut n: usize = 0;
        while n < 7
            invariant
                n <= 7,
                self.kernel_stack matches Some(s) && s.base + 28 <= sp0 <= s.base + s.bytes@.len() && s.base
                    == old(self).kernel_stack->0.base && s.bytes@.len() == bytes0.len()
                    && (forall|i: int| self.stack_pointer - s.base <= i < sp0 - s.base ==> s.bytes@[i] == 0)
                    && (forall|i: int| 0 <= i < s.bytes@.len() && !(self.stack_pointer - s.base <= i < sp0 - s.base)
                        ==> s.bytes@[i] == bytes0[i]),
                self.stack_pointer == sp0 - 4 * n,
                sp0 == old(self).stack_pointer,
                bytes0 == old(self).kernel_stack->0.bytes@,
                *self == (Task { stack_pointer: self.stack_pointer, kernel_stack: self.kernel_stack, ..*old(self) }),
            decreases 7 - n,
        {
            let ghost before = self.kernel_stack->0.bytes@;
            self.stack_push_u32(0);
            proof {
                let s = self.kernel_stack->0;
                let lo = self.stack_pointer - s.base;
                assert forall|i: int| lo <= i < lo + 4 implies s.bytes@[i] == 0 by {
                    assert(s.bytes@[i] == s.bytes@.subrange(lo, lo + 4)[i - lo]);
                }
            }
            n = n + 1;
        }
    }

    /// Prepare the stack so that the first switch into the task starts
    /// executing at `entry_point`, the address of the task's body.
    pub fn set_entry_point(&mut self, entry_point: u32)
        requires
            old(self).kernel_stack matches Some(s) && s.base + 32 <= old(self).stack_pointer <= s.base + s.bytes@.len(),
        ensures
            final(self).stack_pointer == old(self).stack_pointer - 32,
            final(self).kernel_stack matches Some(s) && s.base == old(self).kernel_stack->0.base
                && s.bytes@.len() == old(self).kernel_stack->0.bytes@.len()
                && s.bytes@.subrange(final(self).stack_pointer - s.base, final(self).stack_pointer - s.base + 4) == le_bytes(entry_point)
                && (forall|i: int| final(self).stack_pointer - s.base + 4 <= i < old(self).stack_pointer - s.base ==> s.bytes@[i] == 0)
                && (forall|i: int| 0 <= i < s.bytes@.len() && !(final(self).stack_pointer - s.base <= i < old(self).stack_pointer - s.base)
                    ==> s.bytes@[i] == old(self).kernel_stack->0.bytes@[i]),
            *final(self) == (Task { stack_pointer: final(self).stack_pointer, kernel_stack: final(self).kernel_stack, ..*old(self) }),
    {
        self.initialize_registers();
        self.stack_push_u32(entry_point);
    }

    /// Determine if the scheduler can re-enter the task
    pub fn can_resume(&self) -> (r: bool)
        ensures
            r == (self.state matches RunState::Running || self.state matches RunState::Resuming(_)),
    {
        match self.state {
            RunState::Running => true,
            RunState::Resuming(_) => true,
            _ => false,
        }
    }

    pub fn make_runnable(&mut self)
        ensures
            *final(self) == (Task {
                state: if old(self).state == RunState::Uninitialized { RunState::Running } else { old(self).state },
                ..*old(self)
            }),
    {
        if let RunState::Uninitialized = self.state {
            self.state = RunState::Running;
        }
    }

    /// End all execution of the task, and mark its resources as available for
    /// cleanup
    pub fn terminate(&mut self)
        ensures
            *final(self) == (Task { state: RunState::Terminated, ..*old(self) }),
    {
        self.state = RunState::Terminated;
    }

    pub fn is_terminated(&self) -> (r: bool)
        ensures
            r == (self.state == RunState::Terminated),
    {
        match self.state {
            RunState::Terminated => true,
            _ => false,
        }
    }
}

/// Letting `a` and then `b` milliseconds pass is the same as letting `a + b`
/// pass at once
pub proof fn law_timeouts_compose(state: RunState, a: u32, b: u32)
    requires
        a + b <= u32::MAX,
    ensures
        timeout_state(timeout_state(state, a), b) == timeout_state(state, (a + b) as u32),
{
}

} // verus!
