use idos_task::actions::remap_memory_for_task;
use idos_task::actions::{
    add_args, create_idle_task, create_kernel_task, create_task, exception, map_memory_for_task, send_message, sleep,
    terminate, terminate_id, terminate_task, unmap_memory, unmap_memory_for_task, DmaRange, InMemoryArgsIterator,
};
use idos_task::address::{PhysicalAddress, VirtualAddress};
use idos_task::frames::{FilePageTracker, FrameTracker};
use idos_task::id::TaskID;
use idos_task::map::TaskMap;
use idos_task::memory::{MemMapError, MemoryBacking};
use idos_task::messaging::{Message, MessagePacket};
use idos_task::paging::{
    current_pagedir_map_explicit, maybe_get_current_physical_address, ExternalPageDirectory, PermissionFlags,
    PhysicalMemory,
};
use idos_task::scheduling::{CPUScheduler, WorkQueue};
use idos_task::stack::{KernelStack, StackAllocator};
use idos_task::state::{BlockType, RunState, Task};
use idos_task::switching::{clean_up_task, get_current_id, init, record_switch, switch_to, update_timeouts};

const STACKS_TOP: usize = 0xe000_0000;

/// A kernel with the initial task in place: memory with one directory whose
/// kernel stack area has its table
fn boot() -> (TaskMap, StackAllocator, PhysicalMemory, PhysicalAddress) {
    let mut mem = PhysicalMemory::new(0x100000, 0x200000);
    let dir = mem.new_directory().unwrap();
    // give the stack area its page table
    current_pagedir_map_explicit(
        &mut mem,
        dir,
        PhysicalAddress::new(0x1000),
        VirtualAddress::new(0xdfc0_0000),
        PermissionFlags::empty(),
    );
    let mut tasks = TaskMap::new();
    let mut stacks = StackAllocator::new(STACKS_TOP);
    let state = init(&mut tasks, &mut stacks, dir, 1000);
    assert_eq!(get_current_id(&state), TaskID::new(0));
    (tasks, stacks, mem, dir)
}

#[test]
fn initial_task_is_running() {
    let (tasks, _, _, dir) = boot();
    let task = tasks.get_task(TaskID::new(0)).unwrap();
    assert_eq!(task.state, RunState::Running);
    assert_eq!(task.parent_id, TaskID::new(0));
    assert_eq!(task.page_directory, dir);
    assert_eq!(task.get_kernel_stack().base, STACKS_TOP - 0x1000);
}

#[test]
fn create_task_takes_id_stack_and_directory() {
    let (mut tasks, mut stacks, mut mem, dir) = boot();
    let id = create_task(&mut tasks, &mut stacks, &mut mem, dir, TaskID::new(0));
    assert_eq!(id, TaskID::new(1));
    let task = tasks.get_task(id).unwrap();
    assert_eq!(task.state, RunState::Uninitialized);
    assert_eq!(task.parent_id, TaskID::new(0));
    // the second stack slot, backed by the next frame
    assert_eq!(task.get_kernel_stack().base, STACKS_TOP - 0x2000);
    assert_eq!(
        maybe_get_current_physical_address(&mem, dir, VirtualAddress::new((STACKS_TOP - 0x2000) as u32)),
        Some(PhysicalAddress::new(0x102000))
    );
    assert_eq!(task.page_directory, PhysicalAddress::new(0x103000));
    assert_eq!(task.stack_pointer, STACKS_TOP - 0x1000 - 4);
    let second = create_task(&mut tasks, &mut stacks, &mut mem, dir, id);
    assert_eq!(second, TaskID::new(2));
    assert_eq!(tasks.get_task(second).unwrap().parent_id, id);
    assert_eq!(tasks.for_each_task_id(), vec![TaskID::new(0), TaskID::new(1), TaskID::new(2)]);
}

#[test]
fn kernel_task_is_queued_with_its_entry_point() {
    let (mut tasks, mut stacks, mut mem, dir) = boot();
    let mut queue = WorkQueue::new();
    let id = create_kernel_task(&mut tasks, &mut stacks, &mut mem, &mut queue, dir, TaskID::new(0), 0xc010_2030, Some("CHILD"));
    let task = tasks.get_task(id).unwrap();
    assert_eq!(task.state, RunState::Running);
    assert_eq!(task.filename, "CHILD");
    let stack = task.get_kernel_stack();
    let sp = task.stack_pointer - stack.base;
    assert_eq!(sp, 0x1000 - 4 - 32);
    assert_eq!(stack.bytes[sp..sp + 4].to_vec(), vec![0x30, 0x20, 0x10, 0xc0]);
    assert!(stack.bytes[sp + 4..sp + 32].iter().all(|b| *b == 0));
    let unnamed = create_kernel_task(&mut tasks, &mut stacks, &mut mem, &mut queue, dir, TaskID::new(0), 0, None);
    assert_eq!(tasks.get_task(unnamed).unwrap().filename, "KERNEL");
}

#[test]
fn idle_task() {
    let (mut tasks, _, mut mem, dir) = boot();
    let stack = KernelStack { base: 0x8000, bytes: vec![0u8; 0x1000] };
    let id = create_idle_task(&mut tasks, &mut mem, dir, stack);
    let task = tasks.get_task(id).unwrap();
    assert_eq!(task.filename, "IDLE");
    assert_eq!(task.parent_id, TaskID::new(0));
    assert_eq!(task.stack_pointer, 0x8000 + 0x1000 - 4);
}

#[test]
fn sleeping_task_wakes_after_its_timeout() {
    let (mut tasks, _, _, _) = boot();
    let mut queue = WorkQueue::new();
    sleep(&mut tasks, TaskID::new(0), 30);
    assert_eq!(tasks.get_task(TaskID::new(0)).unwrap().state, RunState::Blocked(Some(30), BlockType::Sleep));
    update_timeouts(&mut tasks, &mut queue, 10);
    assert_eq!(tasks.get_task(TaskID::new(0)).unwrap().state, RunState::Blocked(Some(20), BlockType::Sleep));
    update_timeouts(&mut tasks, &mut queue, 20);
    assert_eq!(tasks.get_task(TaskID::new(0)).unwrap().state, RunState::Running);
}

#[test]
fn messages_are_delivered_in_order() {
    let (mut tasks, mut stacks, mut mem, dir) = boot();
    let child = create_task(&mut tasks, &mut stacks, &mut mem, dir, TaskID::new(0));
    send_message(&mut tasks, 5, TaskID::new(0), child, Message(1, 1, 1, 1), 0xffff_ffff);
    send_message(&mut tasks, 5, TaskID::new(0), child, Message(5, 5, 5, 5), 0xffff_ffff);
    // a message to a task that does not exist is dropped
    send_message(&mut tasks, 5, TaskID::new(0), TaskID::new(77), Message(9, 9, 9, 9), 0xffff_ffff);
    let mut task = tasks.take_task(child).unwrap();
    let (first, more) = task.read_message(6);
    assert_eq!(first, Some(MessagePacket { from: TaskID::new(0), message: Message(1, 1, 1, 1) }));
    assert!(more);
    let (second, more) = task.read_message(6);
    assert_eq!(second.unwrap().open(), (TaskID::new(0), Message(5, 5, 5, 5)));
    assert!(!more);
}

#[test]
fn message_wakes_a_blocked_reader() {
    let (mut tasks, _, _, _) = boot();
    let mut task = tasks.take_task(TaskID::new(0)).unwrap();
    let (nothing, _) = task.read_message_blocking(0, Some(100));
    assert_eq!(nothing, None);
    assert_eq!(task.state, RunState::Blocked(Some(100), BlockType::Message));
    tasks.insert_task(task);
    send_message(&mut tasks, 1, TaskID::new(3), TaskID::new(0), Message(1, 2, 3, 4), 50);
    assert_eq!(tasks.get_task(TaskID::new(0)).unwrap().state, RunState::Running);
}

#[test]
fn parent_resumes_with_exit_code() {
    let (mut tasks, mut stacks, mut mem, dir) = boot();
    let child = create_task(&mut tasks, &mut stacks, &mut mem, dir, TaskID::new(0));
    let mut parent = tasks.take_task(TaskID::new(0)).unwrap();
    parent.wait_for_child(child, None);
    tasks.insert_task(parent);
    terminate_id(&mut tasks, child, 4);
    assert_eq!(tasks.get_task(child).unwrap().state, RunState::Terminated);
    let mut parent = tasks.take_task(TaskID::new(0)).unwrap();
    assert_eq!(parent.state, RunState::Resuming(4));
    assert_eq!(parent.resume_from_wait(), 4);
    assert_eq!(parent.state, RunState::Running);
}

#[test]
fn terminating_other_ways() {
    let (mut tasks, mut stacks, mut mem, dir) = boot();
    let a = create_task(&mut tasks, &mut stacks, &mut mem, dir, TaskID::new(0));
    let b = create_task(&mut tasks, &mut stacks, &mut mem, dir, TaskID::new(0));
    let c = create_task(&mut tasks, &mut stacks, &mut mem, dir, TaskID::new(0));
    let mut parent = tasks.take_task(TaskID::new(0)).unwrap();
    parent.wait_for_child(c, Some(100));
    tasks.insert_task(parent);
    terminate_task(&mut tasks, a, 1);
    terminate(&mut tasks, b, 2);
    // the parent waits on another child, and stays blocked
    assert_eq!(tasks.get_task(TaskID::new(0)).unwrap().state, RunState::Blocked(Some(100), BlockType::WaitForChild(c)));
    exception(&mut tasks, c);
    assert_eq!(tasks.get_task(TaskID::new(0)).unwrap().state, RunState::Resuming(255));
    assert!(tasks.get_task(a).unwrap().is_terminated());
    assert!(tasks.get_task(b).unwrap().is_terminated());
    // terminating a task that does not exist changes nothing
    terminate_id(&mut tasks, TaskID::new(99), 0);
    assert_eq!(tasks.for_each_task_id().len(), 4);
}

#[test]
fn adding_args() {
    let (mut tasks, mut stacks, mut mem, dir) = boot();
    let id = create_task(&mut tasks, &mut stacks, &mut mem, dir, TaskID::new(0));
    let args = vec![String::from("arg_one"), String::from("arg_2"), String::from("arg_three")];
    add_args(&mut tasks, id, &args);
    let task = tasks.get_task(id).unwrap();
    let mut expected: Vec<u8> = Vec::new();
    for s in args.iter() {
        expected.extend_from_slice(s.as_bytes());
        expected.push(0);
    }
    assert_eq!(task.args.arg_string(), &expected);
    assert_eq!(task.args.arg_lengths(), &vec![8, 6, 10]);
    assert_eq!(task.args.arg_count(), 3);
}

#[test]
fn args_in_memory_are_read_back() {
    let args = vec!["arg_one", "arg_2", "arg_three"];
    let total_length: usize = args.iter().map(|s| s.len() + 2).sum();
    let mut buffer = Vec::with_capacity(total_length);
    for arg in args.iter() {
        let len = arg.len();
        buffer.push((len & 0xff) as u8);
        buffer.push(((len >> 8) & 0xff) as u8);
        buffer.extend_from_slice(arg.as_bytes());
    }
    assert_eq!(buffer.len(), total_length);
    let mut iter = InMemoryArgsIterator::new(buffer, total_length);
    assert_eq!(iter.next(), Some(b"arg_one".to_vec()));
    assert_eq!(iter.next(), Some(b"arg_2".to_vec()));
    assert_eq!(iter.next(), Some(b"arg_three".to_vec()));
    assert_eq!(iter.next(), None);
}

#[test]
fn args_size_is_cut_at_the_end() {
    // the size field claims more bytes than remain
    let buffer = vec![200u8, 0, b'a', b'b', b'c'];
    let mut iter = InMemoryArgsIterator::new(buffer, 5);
    assert_eq!(iter.next(), Some(b"abc".to_vec()));
    assert_eq!(iter.next(), None);
}

#[test]
fn switching_records_jitter() {
    let (mut tasks, mut stacks, _, _) = (TaskMap::new(), StackAllocator::new(STACKS_TOP), 0, 0);
    let mut state = init(&mut tasks, &mut stacks, PhysicalAddress::new(0x1000), 100);
    assert_eq!(record_switch(&mut state, TaskID::new(3), 150), 50);
    assert_eq!(state.current_id, TaskID::new(3));
    assert_eq!(record_switch(&mut state, TaskID::new(4), 180), 30u32.wrapping_sub(50));
    assert_eq!(state.last_switch, 180);
    assert_eq!(state.last_switch_delta, 30);
    assert_eq!(get_current_id(&state), TaskID::new(4));
}

#[test]
fn switching_loads_the_next_stack_top() {
    let (mut tasks, mut stacks, _, _) = (TaskMap::new(), StackAllocator::new(STACKS_TOP), 0, 0);
    let mut state = init(&mut tasks, &mut stacks, PhysicalAddress::new(0x1000), 100);
    let mut cpu = CPUScheduler::new(0, TaskID::new(0), VirtualAddress::new(0xdfff_e000));
    let jitter = switch_to(&mut state, &mut cpu, &tasks, TaskID::new(0), 160);
    assert_eq!(jitter, 60);
    assert_eq!(get_current_id(&state), TaskID::new(0));
    // the initial task's stack is the first slot below the top of the stack area
    assert_eq!(cpu.tss_esp0, STACKS_TOP as u32);
    assert_eq!(tasks.get_task(TaskID::new(0)).unwrap().state, RunState::Running);
}

#[test]
fn timeouts_requeue_in_id_order() {
    let (mut tasks, mut stacks, mut mem, dir) = boot();
    let mut queue = WorkQueue::new();
    let a = create_task(&mut tasks, &mut stacks, &mut mem, dir, TaskID::new(0));
    let b = create_task(&mut tasks, &mut stacks, &mut mem, dir, TaskID::new(0));
    for (id, t) in [(b, 5u32), (a, 10u32)] {
        let mut task = tasks.take_task(id).unwrap();
        task.make_runnable();
        task.sleep(t);
        tasks.insert_task(task);
    }
    update_timeouts(&mut tasks, &mut queue, 10);
    assert_eq!(tasks.get_task(a).unwrap().state, RunState::Running);
    assert_eq!(tasks.get_task(b).unwrap().state, RunState::Running);
    let mut scheduler = idos_task::scheduling::CPUScheduler::new(0, TaskID::new(0), VirtualAddress::new(0));
    assert_eq!(idos_task::scheduling::switch(&mut scheduler, &mut queue, &tasks), Some(a));
}

#[test]
fn unmapping_memory_releases_frames() {
    let (mut tasks, _, mut mem, dir) = boot();
    let mut frames = FrameTracker::new();
    let mut files = FilePageTracker::new();
    let current = TaskID::new(0);
    let at = map_memory_for_task(
        &mut tasks,
        &mut mem,
        &mut frames,
        current,
        Some(VirtualAddress::new(0x40000)),
        0x2000,
        MemoryBacking::Direct(PhysicalAddress::new(0xb8000)),
    )
    .unwrap();
    assert_eq!(at, VirtualAddress::new(0x40000));
    // direct mappings are entered at once
    assert_eq!(
        maybe_get_current_physical_address(&mem, dir, VirtualAddress::new(0x41010)),
        Some(PhysicalAddress::new(0xb9010))
    );
    assert_eq!(unmap_memory(&mut tasks, &mut mem, &mut frames, &mut files, current, VirtualAddress::new(0x40000), 0x2000), Ok(()));
    assert_eq!(maybe_get_current_physical_address(&mem, dir, VirtualAddress::new(0x40000)), None);
    assert_eq!(maybe_get_current_physical_address(&mem, dir, VirtualAddress::new(0x41000)), None);
    assert_eq!(tasks.get_task(current).unwrap().memory_mapping.len(), 0);
    assert_eq!(
        unmap_memory_for_task(&mut tasks, &mut mem, &mut frames, &mut files, TaskID::new(42), VirtualAddress::new(0x40000), 0x1000),
        Err(MemMapError::NoTask)
    );
    assert_eq!(
        unmap_memory(&mut tasks, &mut mem, &mut frames, &mut files, current, VirtualAddress::new(0x40000), 0x10),
        Err(MemMapError::UnmapNotPageMultiple)
    );
}

#[test]
fn unmapping_clears_only_the_requested_pages() {
    let (mut tasks, _, mut mem, dir) = boot();
    let mut frames = FrameTracker::new();
    let mut files = FilePageTracker::new();
    let task = TaskID::new(0);
    for (va, pa) in [(0x5000u32, 0xb8000u32), (0x6000, 0xb9000)] {
        map_memory_for_task(
            &mut tasks,
            &mut mem,
            &mut frames,
            task,
            Some(VirtualAddress::new(va)),
            0x1000,
            MemoryBacking::Direct(PhysicalAddress::new(pa)),
        )
        .unwrap();
    }
    assert_eq!(
        unmap_memory_for_task(&mut tasks, &mut mem, &mut frames, &mut files, task, VirtualAddress::new(0x4000), 0x2000),
        Ok(())
    );
    assert_eq!(maybe_get_current_physical_address(&mem, dir, VirtualAddress::new(0x5000)), None);
    assert_eq!(
        maybe_get_current_physical_address(&mem, dir, VirtualAddress::new(0x6000)),
        Some(PhysicalAddress::new(0xb9000))
    );
}

#[test]
fn dma_range_is_contiguous() {
    let (mut tasks, _, mut mem, dir) = boot();
    let mut frames = FrameTracker::new();
    let files = FilePageTracker::new();
    let range = DmaRange::for_byte_length(&mut tasks, &mut mem, &mut frames, &files, TaskID::new(0), 0x1001).unwrap();
    assert_eq!(range.page_count, 2);
    assert_eq!(range.vaddr_start, VirtualAddress::new(0xbfffe000));
    assert_eq!(range.paddr_start, PhysicalAddress::new(0x102000));
    assert_eq!(
        maybe_get_current_physical_address(&mem, dir, VirtualAddress::new(0xbffff004)),
        Some(PhysicalAddress::new(0x103004))
    );
    let none = DmaRange::with_page_count(&mut tasks, &mut mem, &mut frames, &files, TaskID::new(0), 0);
    assert!(matches!(none, Err(MemMapError::InvalidSize)));
    let none = DmaRange::for_byte_length(&mut tasks, &mut mem, &mut frames, &files, TaskID::new(0), 0);
    assert!(matches!(none, Err(MemMapError::InvalidSize)));
}

#[test]
fn external_directory_maps_for_another_task() {
    let (mut tasks, mut stacks, mut mem, dir) = boot();
    let child = create_task(&mut tasks, &mut stacks, &mut mem, dir, TaskID::new(0));
    let pagedir = ExternalPageDirectory::for_task(&tasks, child);
    assert_eq!(pagedir.id, child);
    let child_dir = tasks.get_task(child).unwrap().page_directory;
    assert_eq!(pagedir.page_directory_location, child_dir);
    pagedir.map(&mut mem, VirtualAddress::new(0x7000), PhysicalAddress::new(0x9000), PermissionFlags::empty());
    assert_eq!(maybe_get_current_physical_address(&mem, child_dir, VirtualAddress::new(0x7001)), Some(PhysicalAddress::new(0x9001)));
    assert_eq!(maybe_get_current_physical_address(&mem, dir, VirtualAddress::new(0x7001)), None);
    assert!(pagedir.unmap(&mut mem, VirtualAddress::new(0x7000)).is_some());
    assert_eq!(maybe_get_current_physical_address(&mem, child_dir, VirtualAddress::new(0x7001)), None);
}

#[test]
fn clean_up_terminated_task() {
    let (mut tasks, mut stacks, mut mem, dir) = boot();
    let mut frames = FrameTracker::new();
    let mut files = FilePageTracker::new();
    let child = create_task(&mut tasks, &mut stacks, &mut mem, dir, TaskID::new(0));
    let child_dir = tasks.get_task(child).unwrap().page_directory;
    map_memory_for_task(
        &mut tasks,
        &mut mem,
        &mut frames,
        child,
        Some(VirtualAddress::new(0x1000)),
        0x1000,
        MemoryBacking::Direct(PhysicalAddress::new(0x9000)),
    )
    .unwrap();
    let table = mem.read_entry(child_dir.as_u32(), 0) & 0xfffff000;
    terminate_id(&mut tasks, child, 0);
    let released = clean_up_task(&mut tasks, &mut mem, &mut frames, &mut files, child);
    assert_eq!(released, vec![PhysicalAddress::new(table), child_dir]);
    assert_eq!(tasks.get_task(child).unwrap().memory_mapping.len(), 0);
    assert_eq!(maybe_get_current_physical_address(&mem, child_dir, VirtualAddress::new(0x1000)), None);
    assert_eq!(clean_up_task(&mut tasks, &mut mem, &mut frames, &mut files, TaskID::new(50)), vec![]);
}

#[test]
fn task_state_transitions() {
    let stack = KernelStack { base: 0x8000, bytes: vec![0u8; 0x1000] };
    let mut task = Task::new(TaskID::new(5), TaskID::new(1), stack);
    assert!(!task.can_resume());
    task.make_runnable();
    assert!(task.can_resume());
    task.wait_for_io(None);
    assert_eq!(task.state, RunState::Blocked(None, BlockType::IO));
    task.io_complete();
    assert_eq!(task.state, RunState::Running);
    task.child_terminated(TaskID::new(9), 3);
    assert_eq!(task.state, RunState::Running);
    assert_eq!(task.resume_from_wait(), 0);
    task.terminate();
    assert!(task.is_terminated());
    assert!(!task.can_resume());
}

#[test]
fn stack_pushes_are_little_endian() {
    let stack = KernelStack { base: 0x8000, bytes: vec![0u8; 0x1000] };
    let mut task = Task::new(TaskID::new(5), TaskID::new(1), stack);
    task.stack_push_u8(0xaa);
    task.stack_push_u32(0x11223344);
    let sp = task.stack_pointer - 0x8000;
    assert_eq!(sp, 0x1000 - 4 - 5);
    assert_eq!(task.get_kernel_stack().bytes[sp..sp + 5].to_vec(), vec![0x44, 0x33, 0x22, 0x11, 0xaa]);
    task.reset_stack_pointer();
    assert_eq!(task.stack_pointer, 0x8000 + 0x1000 - 4);
}

#[test]
fn remapping_swaps_the_backing() {
    let (mut tasks, _, mut mem, _) = boot();
    let mut frames = FrameTracker::new();
    let current = TaskID::new(0);
    map_memory_for_task(&mut tasks, &mut mem, &mut frames, current, Some(VirtualAddress::new(0x50000)), 0x3000, MemoryBacking::FreeMemory)
        .unwrap();
    let old = remap_memory_for_task(&mut tasks, current, VirtualAddress::new(0x51234), MemoryBacking::IsaDma);
    assert_eq!(old, Ok(MemoryBacking::FreeMemory));
    let again = remap_memory_for_task(&mut tasks, current, VirtualAddress::new(0x50000), MemoryBacking::FreeMemory);
    assert_eq!(again, Ok(MemoryBacking::IsaDma));
    assert_eq!(
        remap_memory_for_task(&mut tasks, current, VirtualAddress::new(0x60000), MemoryBacking::FreeMemory),
        Err(MemMapError::NotMapped)
    );
    assert_eq!(
        remap_memory_for_task(&mut tasks, TaskID::new(77), VirtualAddress::new(0x50000), MemoryBacking::FreeMemory),
        Err(MemMapError::NoTask)
    );
}
