//! Handles: the per-task table of open IO objects, and the asynchronous
//! operations queued on each of them.
use vstd::prelude::*;
use std::collections::VecDeque;
use crate::address::{PhysicalAddress, VirtualAddress};
use crate::paging::{PhysicalMemory, PageFault, is_directory, translate, demand_ok, demanded, containing_region, shared_page, get_current_physical_address};
use crate::frames::{FrameTracker, FilePageTracker};

use crate::state::TaskMemory;
use crate::files::DriverID;
use crate::id::TaskID;

verus! {

/// A reference to an entry in a task's table of open handles
#[derive(Copy, Clone, Debug, PartialEq, Eq, Structural)]
pub struct Handle(pub usize);

impl Handle {
    pub fn new(inner: usize) -> (r: Self)
        ensures
            r.0 == inner,
    {
        Handle(inner)
    }

    /// The index of the table entry that this handle refers to
    pub fn index(&self) -> (r: usize)
        ensures
            r == self.0,
    {
        self.0
    }
}

/// An asynchronous operation submitted by a task. Its completion is signalled
/// by writing a value to the semaphore, a physical address.
#[derive(Copy, Clone, Debug, PartialEq, Eq, Structural)]
pub struct AsyncOp {
    pub op_code: u32,
    pub semaphore: PhysicalAddress,
    pub arg0: u32,
    pub arg1: u32,
    pub arg2: u32,
}

/// Whether the semaphore at `addr` reaches a physical address without any
/// file having to be read: its page is mapped, or it can be filled in from
/// free memory, DMA memory or a page of a shared file already loaded
pub open spec fn semaphore_resolvable(
    mem: &PhysicalMemory,
    dir: u32,
    files: Map<(u32, u32, u32), u32>,
    s: Seq<crate::memory::MemMappedRegion>,
    addr: u32,
) -> bool {
    ||| translate(mem@, dir, addr) is Some
    ||| {
        &&& demand_ok(mem, dir, files, s, addr)
        &&& match containing_region(s, addr) {
            Some(r) => !(r.backed_by is FileBacked) || shared_page(files, r, addr) is Some,
            None => false,
        }
    }
}

impl AsyncOp {
    /// Completes the operation: `code` is stored in the word of physical memory its semaphore
    /// names.
    pub fn complete(&self, mem: &mut PhysicalMemory, code: u32)
        requires
            old(mem).wf(),
            self.semaphore.0 % 4 == 0,
            old(mem)@.contains_key((self.semaphore.0 - self.semaphore.0 % 0x1000) as u32),
            old(mem)@[(self.semaphore.0 - self.semaphore.0 % 0x1000) as u32].len() == 1024,
        ensures
            final(mem).wf(),
            final(mem).next_free() == old(mem).next_free(),
            final(mem).limit() == old(mem).limit(),
            ({
                let frame = (self.semaphore.0 - self.semaphore.0 % 0x1000) as u32;
                final(mem)@ == old(mem)@.insert(
                    frame,
                    old(mem)@[frame].update(((self.semaphore.0 % 0x1000) / 4) as int, code),
                )
            }),
    {
        let offset = self.semaphore.0 % 0x1000;
        let frame = self.semaphore.0 - offset;
        mem.write_entry(frame, (offset / 4) as usize, code);
    }

    /// An operation whose semaphore is the virtual address `semaphore_addr`
    /// of the current task; the operation keeps the physical address it
    /// reaches, filling in its page if needed
    pub fn new(
        mem: &mut PhysicalMemory,
        current: PhysicalAddress,
        frames: &mut FrameTracker,
        files: &FilePageTracker,
        mapping: &TaskMemory,
        code: u32,
        semaphore_addr: u32,
        arg0: u32,
        arg1: u32,
        arg2: u32,
    ) -> (r: Self)
        requires
            old(mem).wf(),
            is_directory(old(mem)@, current.0),
            mapping.wf(),
            semaphore_resolvable(old(mem), current.0, files@, mapping@, semaphore_addr),
        ensures
            final(mem).wf(),
            final(mem).limit() == old(mem).limit(),
            is_directory(final(mem)@, current.0),
            r.op_code == code && r.arg0 == arg0 && r.arg1 == arg1 && r.arg2 == arg2,
            match translate(old(mem)@, current.0, semaphore_addr) {
                Some(p) => {
                    &&& r.semaphore == PhysicalAddress(p)
                    &&& final(mem)@ == old(mem)@
                    &&& final(mem).next_free() == old(mem).next_free()
                    &&& final(frames)@ == old(frames)@
                },
                None => demanded(
                    old(mem),
                    final(mem),
                    old(frames)@,
                    final(frames)@,
                    files@,
                    current.0,
                    mapping@,
                    semaphore_addr,
                    PageFault::Resolved(r.semaphore),
                ),
            },
    {
        let resolved = get_current_physical_address(mem, current, frames, files, mapping, VirtualAddress::new(semaphore_addr));
        let phys_addr = match resolved {
            PageFault::Resolved(p) => p,
            _ => PhysicalAddress::new(0),
        };
        AsyncOp { op_code: code, semaphore: phys_addr, arg0, arg1, arg2 }
    }
}

// Op Codes use the top bits to indicate the handle type they modify
pub const OPERATION_FLAG_FILE: u32 = 0x80000000;
pub const OPERATION_FLAG_TASK: u32 = 0x40000000;
pub const OPERATION_FLAG_INTERRUPT: u32 = 0x20000000;
pub const OPERATION_FLAG_MESSAGE: u32 = 0x10000000;
pub const OPERATION_FLAG_SOCKET: u32 = 0x08000000;

pub const FILE_OP_OPEN: u32 = 1;
pub const FILE_OP_READ: u32 = 2;
pub const FILE_OP_WRITE: u32 = 3;
pub const FILE_OP_SEEK: u32 = 4;
pub const FILE_OP_STAT: u32 = 5;

pub const SOCKET_OP_BIND: u32 = 1;
pub const SOCKET_OP_READ: u32 = 2;
pub const SOCKET_OP_WRITE: u32 = 3;

pub const MESSAGE_OP_READ: u32 = 2;

/// A file opened through a driver
#[derive(Copy, Clone, Debug, PartialEq, Eq, Structural)]
pub struct OpenFile {
    pub driver_id: DriverID,
    pub instance: u32,
}

/// A network socket known to the network stack
#[derive(Copy, Clone, Debug, PartialEq, Eq, Structural)]
pub struct SocketHandle(pub u32);

#[derive(Copy, Clone, Debug, PartialEq, Eq, Structural)]
pub enum HandleType {
    /// A file or device
    File(Option<OpenFile>),
    /// A network socket
    Socket(SocketHandle),
    /// A task spawned from the current one, with its exit code once known
    Task(TaskID, Option<u32>),
    /// Hardware interrupt
    HardwareInterrupt(u8),
    /// Soft interrupt
    SoftInterrupt(u8),
    /// The message queue
    MessageQueue,
}

/// The operation-code flag that marks operations for a kind of handle
pub open spec fn op_flag_for(t: HandleType) -> u32 {
    match t {
        HandleType::File(_) => OPERATION_FLAG_FILE,
        HandleType::Task(_, _) => OPERATION_FLAG_TASK,
        HandleType::HardwareInterrupt(_) => OPERATION_FLAG_INTERRUPT,
        HandleType::SoftInterrupt(_) => OPERATION_FLAG_INTERRUPT,
        HandleType::MessageQueue => OPERATION_FLAG_MESSAGE,
        HandleType::Socket(_) => OPERATION_FLAG_SOCKET,
    }
}

impl HandleType {
    /// Determine whether this operation is applicable to this handle type
    pub fn can_apply_op(&self, op: AsyncOp) -> (r: bool)
        ensures
            r == (op.op_code & op_flag_for(*self) != 0),
    {
        match self {
            HandleType::File(_) => op.op_code & OPERATION_FLAG_FILE != 0,
            HandleType::Task(_, _) => op.op_code & OPERATION_FLAG_TASK != 0,
            HandleType::HardwareInterrupt(_) => op.op_code & OPERATION_FLAG_INTERRUPT != 0,
            HandleType::SoftInterrupt(_) => op.op_code & OPERATION_FLAG_INTERRUPT != 0,
            HandleType::MessageQueue => op.op_code & OPERATION_FLAG_MESSAGE != 0,
            HandleType::Socket(_) => op.op_code & OPERATION_FLAG_SOCKET != 0,
        }
    }
}

#[derive(Copy, Clone, Debug, PartialEq, Eq, Structural)]
pub struct EnqueuedOp {
    pub running: bool,
    pub async_op: AsyncOp,
}

impl EnqueuedOp {
    pub fn new(op: AsyncOp) -> (r: Self)
        ensures
            r == (EnqueuedOp { running: false, async_op: op }),
    {
        EnqueuedOp { running: false, async_op: op }
    }

    pub fn has_run(&self) -> (r: bool)
        ensures
            r == self.running,
    {
        self.running
    }
}

/// The first element of a deque, mutably: `VecDeque::front_mut`
#[verifier::external_body]
fn deque_front_mut<T>(q: &mut VecDeque<T>) -> (r: Option<&mut T>)
    ensures
        match r {
            Some(x) => old(q)@.len() > 0 && *x == old(q)@[0] && final(q)@ == old(q)@.update(0, *final(x)),
            None => old(q)@.len() == 0 && final(q)@ == old(q)@,
        },
{
    q.front_mut()
}

pub struct OpenHandle {
    pub handle_type: HandleType,
    pub queued_ops: VecDeque<EnqueuedOp>,
}

impl OpenHandle {
    /// The operation at the front of the queue: the one being worked on
    pub fn current_op(&self) -> (r: Option<&EnqueuedOp>)
        ensures
            r == (if self.queued_ops@.len() > 0 { Some(&self.queued_ops@[0]) } else { None }),
    {
        if self.queued_ops.len() == 0 {
            None
        } else {
            Some(&self.queued_ops[0])
        }
    }

    pub fn current_op_mut(&mut self) -> (r: Option<&mut EnqueuedOp>)
        ensures
            final(self).handle_type == old(self).handle_type,
            match r {
                Some(x) => old(self).queued_ops@.len() > 0 && *x == old(self).queued_ops@[0]
                    && final(self).queued_ops@ == old(self).queued_ops@.update(0, *final(x)),
                None => old(self).queued_ops@.len() == 0 && final(self).queued_ops@ == old(self).queued_ops@,
            },
    {
        deque_front_mut(&mut self.queued_ops)
    }
}


/// The table of handles a task has open
pub struct OpenHandles {
    list: SlotList<OpenHandle>,
}

/// What a handle table entry is, seen from outside: its type and its queue
pub open spec fn handle_view(h: OpenHandle) -> (HandleType, Seq<EnqueuedOp>) {
    (h.handle_type, h.queued_ops@)
}

impl OpenHandles {
    /// The table's slots, each holding the type and queued operations of an
    /// open handle
    pub closed spec fn slots(&self) -> Seq<Option<(HandleType, Seq<EnqueuedOp>)>> {
        self.list@.map_values(|o: Option<OpenHandle>| match o {
            Some(h) => Some(handle_view(h)),
            None => None,
        })
    }

    pub fn new() -> (r: Self)
        ensures
            r.slots() == Seq::<Option<(HandleType, Seq<EnqueuedOp>)>>::empty(),
    {
        let r = OpenHandles { list: SlotList::new() };
        assert(r.slots() =~= Seq::<Option<(HandleType, Seq<EnqueuedOp>)>>::empty());
        r
    }

    fn create_handle(&mut self, handle_type: HandleType) -> (r: Handle)
        ensures
            r.0 == first_free_slot(old(self).slots()),
            final(self).slots() == slots_insert(old(self).slots(), (handle_type, Seq::<EnqueuedOp>::empty())),
    {
        let open_handle = OpenHandle { handle_type, queued_ops: VecDeque::new() };
        let ghost old_slots = self.list@;
        let index = self.list.insert(open_handle);
        proof {
            lemma_first_free_slot_map::<OpenHandle, (HandleType, Seq<EnqueuedOp>)>(old_slots);
            lemma_first_free_slot(old_slots);
            let f = |o: Option<OpenHandle>| match o {
                Some(h) => Some(handle_view(h)),
                None => None,
            };
            assert(self.slots() =~= slots_insert(old_slots.map_values(f), (handle_type, Seq::<EnqueuedOp>::empty())));
        }
        Handle::new(index)
    }

    pub fn open_socket(&mut self, socket: SocketHandle) -> (r: Handle)
        ensures
            r.0 == first_free_slot(old(self).slots()),
            final(self).slots() == slots_insert(old(self).slots(), (HandleType::Socket(socket), Seq::<EnqueuedOp>::empty())),
    {
        self.create_handle(HandleType::Socket(socket))
    }

    pub fn create_task(&mut self, task: TaskID) -> (r: Handle)
        ensures
            r.0 == first_free_slot(old(self).slots()),
            final(self).slots() == slots_insert(old(self).slots(), (HandleType::Task(task, None), Seq::<EnqueuedOp>::empty())),
    {
        self.create_handle(HandleType::Task(task, None))
    }

    pub fn hw_interrupt(&mut self, irq: u8) -> (r: Handle)
        ensures
            r.0 == first_free_slot(old(self).slots()),
            final(self).slots() == slots_insert(old(self).slots(), (HandleType::HardwareInterrupt(irq), Seq::<EnqueuedOp>::empty())),
    {
        self.create_handle(HandleType::HardwareInterrupt(irq))
    }

    pub fn soft_interrupt(&mut self, irq: u8) -> (r: Handle)
        ensures
            r.0 == first_free_slot(old(self).slots()),
            final(self).slots() == slots_insert(old(self).slots(), (HandleType::SoftInterrupt(irq), Seq::<EnqueuedOp>::empty())),
    {
        self.create_handle(HandleType::SoftInterrupt(irq))
    }

    pub fn message_queue(&mut self) -> (r: Handle)
        ensures
            r.0 == first_free_slot(old(self).slots()),
            final(self).slots() == slots_insert(old(self).slots(), (HandleType::MessageQueue, Seq::<EnqueuedOp>::empty())),
    {
        self.create_handle(HandleType::MessageQueue)
    }

    pub fn get_handle(&self, handle: Handle) -> (r: Option<&OpenHandle>)
        ensures
            match r {
                Some(h) => handle.0 < self.slots().len() && self.slots()[handle.0 as int] == Some(handle_view(*h)),
                None => !(handle.0 < self.slots().len() && self.slots()[handle.0 as int] is Some),
            },
    {
        self.list.get(handle.index())
    }

    pub fn get_handle_mut(&mut self, handle: Handle) -> (r: Option<&mut OpenHandle>)
        ensures
            match r {
                Some(h) => handle.0 < old(self).slots().len() && old(self).slots()[handle.0 as int] == Some(handle_view(*h))
                    && final(self).slots() == old(self).slots().update(handle.0 as int, Some(handle_view(*final(h)))),
                None => !(handle.0 < old(self).slots().len() && old(self).slots()[handle.0 as int] is Some)
                    && final(self).slots() == old(self).slots(),
            },
    {
        let r = self.list.get_mut(handle.index());
        r
    }

    /// Queue an operation on a handle. Returns the length of the handle's
    /// queue afterwards, or an error when the handle is not open.
    pub fn add_operation(&mut self, handle: Handle, op: AsyncOp) -> (r: Result<usize, ()>)
        ensures
            match r {
                Ok(n) => handle.0 < old(self).slots().len() && old(self).slots()[handle.0 as int] is Some && {
                    let (t, q) = old(self).slots()[handle.0 as int]->0;
                    &&& final(self).slots() == old(self).slots().update(handle.0 as int, Some((t, q.push(EnqueuedOp::new_spec(op)))))
                    &&& n == q.len() + 1
                },
                Err(_) => !(handle.0 < old(self).slots().len() && old(self).slots()[handle.0 as int] is Some)
                    && final(self).slots() == old(self).slots(),
            },
    {
        let open_handle = match self.get_handle_mut(handle) {
            Some(h) => h,
            None => return Err(()),
        };
        open_handle.queued_ops.push_back(EnqueuedOp::new(op));
        Ok(open_handle.queued_ops.len())
    }

    /// The open handles, in table order
    pub fn iter(&self) -> (r: Vec<&OpenHandle>)
        ensures
            r@.len() == occupied(self.slots()).len(),
            forall|i: int| 0 <= i < r@.len() ==> handle_view(*r@[i]) == occupied(self.slots())[i],
    {
        proof {
            lemma_occupied_map(self.list@);
        }
        self.list.iter()
    }
}

impl EnqueuedOp {
    pub open spec fn new_spec(op: AsyncOp) -> EnqueuedOp {
        EnqueuedOp { running: false, async_op: op }
    }
}

proof fn lemma_first_free_slot_map<T, U>(slots: Seq<Option<T>>)
    ensures
        forall|f: spec_fn(Option<T>) -> Option<U>| (forall|o: Option<T>| (#[trigger] f(o)) is Some == o is Some)
            ==> first_free_slot(slots.map_values(f)) == first_free_slot(slots),
    decreases slots.len(),
{
    if slots.len() > 0 {
        lemma_first_free_slot_map::<T, U>(slots.drop_first());
        assert forall|f: spec_fn(Option<T>) -> Option<U>| (forall|o: Option<T>| (#[trigger] f(o)) is Some == o is Some)
            implies first_free_slot(slots.map_values(f)) == first_free_slot(slots) by {
            assert(slots.map_values(f).drop_first() =~= slots.drop_first().map_values(f));
            assert(slots.map_values(f)[0] == f(slots[0]));
        }
    }
}

proof fn lemma_occupied_map(slots: Seq<Option<OpenHandle>>)
    ensures
        ({
            let f = |o: Option<OpenHandle>| match o {
                Some(h) => Some(handle_view(h)),
                None => None,
            };
            &&& occupied(slots.map_values(f)).len() == occupied(slots).len()
            &&& forall|i: int| 0 <= i < occupied(slots).len() ==> #[trigger] occupied(slots.map_values(f))[i]
                == handle_view(occupied(slots)[i])
        }),
    decreases slots.len(),
{
    let f = |o: Option<OpenHandle>| match o {
        Some(h) => Some(handle_view(h)),
        None => None,
    };
    if slots.len() > 0 {
        lemma_occupied_map(slots.drop_last());
        assert(slots.map_values(f).drop_last() =~= slots.drop_last().map_values(f));
        let a = occupied(slots.drop_last());
        let fa = occupied(slots.drop_last().map_values(f));
        assert forall|i: int| 0 <= i < occupied(slots).len() implies #[trigger] occupied(slots.map_values(f))[i]
            == handle_view(occupied(slots)[i]) by {
            if i < a.len() {
                assert(occupied(slots)[i] == a[i]);
                assert(occupied(slots.map_values(f))[i] == fa[i]);
            }
        }
    }
}

/// The slot that `insert` fills: the first empty slot, or a new slot at the
/// end when none is empty
pub open spec fn first_free_slot<T>(slots: Seq<Option<T>>) -> int
    decreases slots.len(),
{
    if slots.len() == 0 {
        0
    } else if slots[0] is None {
        0
    } else {
        1 + first_free_slot(slots.drop_first())
    }
}

pub proof fn lemma_first_free_slot<T>(slots: Seq<Option<T>>)
    ensures
        0 <= first_free_slot(slots) <= slots.len(),
        first_free_slot(slots) < slots.len() ==> slots[first_free_slot(slots)] is None,
        forall|j: int| 0 <= j < first_free_slot(slots) ==> slots[j] is Some,
    decreases slots.len(),
{
    if slots.len() > 0 && slots[0] is Some {
        lemma_first_free_slot(slots.drop_first());
        assert forall|j: int| 0 <= j < first_free_slot(slots) implies slots[j] is Some by {
            if j > 0 {
                assert(slots[j] == slots.drop_first()[j - 1]);
            }
        }
    }
}

/// `slots` with `v` stored at the slot that `insert` fills
pub open spec fn slots_insert<T>(slots: Seq<Option<T>>, v: T) -> Seq<Option<T>> {
    if first_free_slot(slots) < slots.len() {
        slots.update(first_free_slot(slots), Some(v))
    } else {
        slots.push(Some(v))
    }
}

/// A slot list fills the lowest empty slot, else grows by one: the value is then found at the
/// index handed back, every other slot keeps what it held, and a slot emptied below all
/// other empty slots is the next one filled.
pub proof fn law_slot_reuse<T>(slots: Seq<Option<T>>, v: T, k: int)
    ensures
        ({
            let i = first_free_slot(slots);
            let after = slots_insert(slots, v);
            &&& 0 <= i <= slots.len()
            &&& i < slots.len() ==> slots[i] is None
            &&& forall|j: int| 0 <= j < i ==> slots[j] is Some
            &&& after[i] == Some(v)
            &&& after.len() == (if i == slots.len() { slots.len() + 1 } else { slots.len() + 0 })
            &&& forall|j: int| 0 <= j < slots.len() && j != i ==> #[trigger] after[j] == slots[j]
        }),
        0 <= k < slots.len() && (forall|j: int| 0 <= j <= k ==> slots[j] is Some) ==> first_free_slot(
            slots.update(k, None),
        ) == k,
{
    lemma_first_free_slot(slots);
    if 0 <= k < slots.len() && (forall|j: int| 0 <= j <= k ==> slots[j] is Some) {
        let u = slots.update(k, None);
        assert forall|j: int| 0 <= j < k implies u[j] is Some by {
            assert(u[j] == slots[j]);
        }
        lemma_first_free_slot_at(u, k);
    }
}

/// A list of slots that reuses emptied slots before growing
pub struct SlotList<T> {
    slots: Vec<Option<T>>,
}

impl<T> View for SlotList<T> {
    type V = Seq<Option<T>>;

    closed spec fn view(&self) -> Seq<Option<T>> {
        self.slots@
    }
}

impl<T> SlotList<T> {
    pub fn new() -> (r: Self)
        ensures
            r@ == Seq::<Option<T>>::empty(),
    {
        SlotList { slots: Vec::new() }
    }

    /// Store a value in the first empty slot, and return that slot's index
    pub fn insert(&mut self, value: T) -> (r: usize)
        ensures
            r == first_free_slot(old(self)@),
            final(self)@ == slots_insert(old(self)@, value),
    {
        proof {
            lemma_first_free_slot(self@);
        }
        let mut i: usize = 0;
        while i < self.slots.len()
            invariant
                i <= self@.len(),
                self@ == old(self)@,
                forall|j: int| 0 <= j < i ==> self@[j] is Some,
                first_free_slot(self@) >= i,
            decreases self@.len() - i,
        {
            if self.slots[i].is_none() {
                proof {
                    lemma_first_free_slot_at(self@, i as int);
                }
                self.slots.set(i, Some(value));
                return i;
            }
            proof {
                lemma_first_free_slot_skip(self@, i as int);
            }
            i = i + 1;
        }
        self.slots.push(Some(value));
        i
    }

    pub fn get(&self, index: usize) -> (r: Option<&T>)
        ensures
            r == (if index < self@.len() && self@[index as int] is Some {
                Some(&self@[index as int]->0)
            } else {
                None
            }),
    {
        if index < self.slots.len() {
            match &self.slots[index] {
                Some(v) => Some(v),
                None => None,
            }
        } else {
            None
        }
    }

    pub fn get_mut(&mut self, index: usize) -> (r: Option<&mut T>)
        ensures
            match r {
                Some(x) => index < old(self)@.len() && old(self)@[index as int] == Some(*x)
                    && final(self)@ == old(self)@.update(index as int, Some(*final(x))),
                None => !(index < old(self)@.len() && old(self)@[index as int] is Some) && final(self)@ == old(self)@,
            },
    {
        if index < self.slots.len() {
            self.slots[index].as_mut()
        } else {
            None
        }
    }

    /// Empty a slot, returning what it held
    pub fn remove(&mut self, index: usize) -> (r: Option<T>)
        ensures
            r == (if index < old(self)@.len() { old(self)@[index as int] } else { None }),
            final(self)@ == (if index < old(self)@.len() { old(self)@.update(index as int, None) } else { old(self)@ }),
    {
        if index < self.slots.len() {
            let mut taken: Option<T> = None;
            std::mem::swap(&mut taken, &mut self.slots[index]);
            taken
        } else {
            None
        }
    }

    /// References to the stored values, in slot order
    pub fn iter(&self) -> (r: Vec<&T>)
        ensures
            r@.len() == occupied(self@).len(),
            forall|i: int| 0 <= i < r@.len() ==> *r@[i] == occupied(self@)[i],
    {
        let mut out: Vec<&T> = Vec::new();
        let mut i: usize = 0;
        while i < self.slots.len()
            invariant
                i <= self@.len(),
                out@.len() == occupied(self@.take(i as int)).len(),
                forall|k: int| 0 <= k < out@.len() ==> *out@[k] == occupied(self@.take(i as int))[k],
            decreases self@.len() - i,
        {
            assert(self@.take(i + 1).drop_last() =~= self@.take(i as int));
            match &self.slots[i] {
                Some(v) => {
                    out.push(v);
                },
                None => {},
            }
            i = i + 1;
        }
        assert(self@.take(self@.len() as int) =~= self@);
        out
    }
}

/// The values held by the occupied slots, in slot order
pub open spec fn occupied<T>(slots: Seq<Option<T>>) -> Seq<T>
    decreases slots.len(),
{
    if slots.len() == 0 {
        Seq::empty()
    } else {
        occupied(slots.drop_last()) + (if slots.last() is Some {
            seq![slots.last()->0]
        } else {
            Seq::empty()
        })
    }
}

proof fn lemma_first_free_slot_at<T>(slots: Seq<Option<T>>, i: int)
    requires
        0 <= i < slots.len(),
        slots[i] is None,
        forall|j: int| 0 <= j < i ==> slots[j] is Some,
    ensures
        first_free_slot(slots) == i,
    decreases i,
{
    if i > 0 {
        lemma_first_free_slot_at(slots.drop_first(), i - 1);
    }
}

proof fn lemma_first_free_slot_skip<T>(slots: Seq<Option<T>>, i: int)
    requires
        0 <= i < slots.len(),
        slots[i] is Some,
        forall|j: int| 0 <= j < i ==> slots[j] is Some,
    ensures
        first_free_slot(slots) > i,
    decreases i,
{
    lemma_first_free_slot(slots.drop_first());
    if i > 0 {
        lemma_first_free_slot_skip(slots.drop_first(), i - 1);
    }
}

} // verus!
