use idos_task::address::{page_ceil, page_floor, PhysicalAddress, VirtualAddress};
use idos_task::args::ExecArgs;
use idos_task::driver::{decode_io_result, decode_request, encode_reply, raw_device_path, DriverRequest, FileStatus, IOError};
use idos_task::env::{args, Args};
use idos_task::frames::{
    get_file_backed_page, track_file_backed_page, untrack_file_backed_page, FilePageTracker, FrameTracker,
};
use idos_task::files::{CurrentDrive, DriverID, DriverMappingToken};
use idos_task::handle::{AsyncOp, EnqueuedOp, Handle, HandleType, OpenHandles, SlotList, OPERATION_FLAG_TASK};
use idos_task::id::{IdGenerator, TaskID};
use idos_task::messaging::{Message, MessageQueue};
use idos_task::paging::PhysicalMemory;
use idos_task::registers::EnvironmentRegisters;
use idos_task::scheduling::{get_current_task_id, CPUScheduler};
use idos_task::stack::StackAllocator;
use idos_task::time::{SystemClock, Timestamp, TimestampHires};

#[test]
fn addresses_round_to_pages() {
    assert_eq!(page_floor(0x1234), 0x1000);
    assert_eq!(page_ceil(0x1234), 0x2000);
    assert_eq!(page_ceil(0x3000), 0x3000);
    let v = VirtualAddress::new(0xc0403abc);
    assert_eq!(v.get_page_directory_index(), 0x301);
    assert_eq!(v.get_page_table_index(), 3);
    assert_eq!(v.prev_page_barrier(), VirtualAddress::new(0xc0403000));
    assert_eq!(v.next_page_barrier(), VirtualAddress::new(0xc0404000));
    assert!(!v.is_page_aligned());
    assert_eq!(PhysicalAddress::new(7).as_u32(), 7);
}

#[test]
fn ids_increase_and_wrap() {
    let mut ids = IdGenerator::new();
    assert_eq!(ids.next(), TaskID::new(1));
    assert_eq!(ids.next(), TaskID::new(2));
    assert_eq!(TaskID::new(9).as_u32(), 9);
}

#[test]
fn exec_args_layout() {
    let mut a = ExecArgs::new();
    a.add("ls").add("-la");
    assert_eq!(a.arg_string(), &b"ls\0-la\0".to_vec());
    assert_eq!(a.arg_lengths(), &vec![3, 4]);
    assert_eq!(a.arg_count(), 2);
    // seven bytes padded to eight, two lengths, one count
    assert_eq!(a.stack_size(), 8 + 8 + 4);
    assert_eq!(ExecArgs::new().stack_size(), 4);
}

#[test]
fn message_queue_is_fifo() {
    let mut q = MessageQueue::new();
    q.add(TaskID::new(1), Message(1, 0, 0, 0), 0, 100);
    q.add(TaskID::new(2), Message(2, 0, 0, 0), 0, 100);
    let (first, more) = q.read(1);
    assert_eq!(first.unwrap().message, Message(1, 0, 0, 0));
    assert!(more);
    let (second, more) = q.read(1);
    assert_eq!(second.unwrap().from, TaskID::new(2));
    assert!(!more);
    assert_eq!(q.read(1), (None, false));
    assert_eq!(Message::empty(), Message(0, 0, 0, 0));
}

#[test]
fn message_expiration() {
    let mut q = MessageQueue::new();
    q.add(TaskID::new(1), Message(1, 1, 1, 1), 0, 10);
    q.add(TaskID::new(2), Message(2, 2, 2, 2), 0, 50);
    assert!(q.has_messages(20));
    let (packet, more) = q.read(20);
    // the first message expired at tick 10
    assert_eq!(packet.unwrap().message, Message(2, 2, 2, 2));
    assert!(!more);
    q.add(TaskID::new(3), Message(3, 3, 3, 3), 0, 5);
    assert!(!q.has_messages(6));
}

#[test]
fn more_counts_only_live_messages() {
    let mut q = MessageQueue::new();
    q.add(TaskID::new(1), Message(1, 0, 0, 0), 0, 100);
    q.add(TaskID::new(2), Message(2, 0, 0, 0), 0, 10);
    let (first, more) = q.read(20);
    assert_eq!(first.unwrap().from, TaskID::new(1));
    // the entry left behind expired at tick 10
    assert!(!more);
    assert_eq!(q.read(20), (None, false));
}

#[test]
fn stack_slots_are_reused_lowest_first() {
    let mut stacks = StackAllocator::new(0xe000_0000);
    let first = stacks.create_initial_stack();
    assert_eq!(first.base, 0xe000_0000 - 0x1000);
    assert_eq!(first.bytes.len(), 0x1000);
    stacks.free_stack(first);
}

#[test]
fn clock_counts_ticks() {
    let mut clock = SystemClock::new();
    clock.tick();
    clock.tick();
    assert_eq!(clock.get_system_ticks(), 2);
    clock.reset_known_time(50_000_000);
    clock.increment_offset(30_000_000);
    assert_eq!(clock.get_offset_seconds(), 3);
    let ts = TimestampHires::from_timestamp(Timestamp(120));
    assert_eq!(ts.0, 1_200_000_000);
    assert_eq!(ts.in_seconds(), 120);
    assert_eq!(ts.in_ms(), 120_000);
    assert_eq!(ts.to_timestamp(), Timestamp(120));
    assert_eq!(Timestamp(150).total_minutes(), 2);
    assert_eq!(Timestamp(150).as_u32(), 150);
    let mut hires = TimestampHires(5);
    hires.increment(10);
    assert_eq!(hires.0, 15);
    hires.set(1);
    assert_eq!(hires.0, 1);
}

#[test]
fn rtc_time_sets_known_time() {
    let mut clock = SystemClock::new();
    clock.initialize_time_from_rtc(Timestamp(10));
    assert_eq!(clock.get_system_time(), TimestampHires(100_000_000));
}

#[test]
fn scheduler_ticks() {
    let mut s = CPUScheduler::new(2, TaskID::new(7), VirtualAddress::new(0x5000));
    assert_eq!(get_current_task_id(&s), TaskID::new(7));
    assert_eq!(s.get_idle_task(), TaskID::new(7));
    assert_eq!(s.get_cpu_index(), 2);
    assert!(!s.tick());
    assert!(s.tick());
    assert!(!s.tick());
    s.record_tick(true);
    s.record_tick(false);
    assert_eq!(s.set_current_task(TaskID::new(3)), TaskID::new(7));
    s.record_tick(false);
    assert_eq!(s.get_tick_counts(), (1, 1, 1));
    let other = CPUScheduler::new(5, TaskID::new(1), VirtualAddress::new(0x7000));
    assert_eq!(
        idos_task::scheduling::get_all_cpu_ticks(&vec![s, other]),
        vec![(2, 1, 1, 1), (5, 0, 0, 0)]
    );
}

#[test]
fn handles_fill_the_lowest_free_slot() {
    let mut handles = OpenHandles::new();
    let a = handles.create_task(TaskID::new(3));
    let b = handles.message_queue();
    let c = handles.hw_interrupt(4);
    assert_eq!((a, b, c), (Handle::new(0), Handle::new(1), Handle::new(2)));
    assert_eq!(handles.iter().len(), 3);
    let op = AsyncOp { op_code: OPERATION_FLAG_TASK | 1, semaphore: PhysicalAddress::new(0x1000), arg0: 0, arg1: 0, arg2: 0 };
    assert!(HandleType::Task(TaskID::new(3), None).can_apply_op(op));
    assert!(!HandleType::MessageQueue.can_apply_op(op));
    assert_eq!(handles.add_operation(a, op), Ok(1));
    assert_eq!(handles.add_operation(a, op), Ok(2));
    assert_eq!(handles.add_operation(Handle::new(9), op), Err(()));
    assert!(!handles.get_handle(a).unwrap().current_op().unwrap().has_run());
    assert!(!EnqueuedOp::new(op).has_run());
    assert_eq!(Handle::new(5).index(), 5);
}

#[test]
fn slot_list_reuses_removed_slots() {
    let mut list: SlotList<u32> = SlotList::new();
    assert_eq!(list.insert(10), 0);
    assert_eq!(list.insert(11), 1);
    assert_eq!(list.remove(0), Some(10));
    assert_eq!(list.get(0), None);
    assert_eq!(list.insert(12), 0);
    assert_eq!(list.get(1), Some(&11));
    *list.get_mut(1).unwrap() = 13;
    assert_eq!(list.iter(), vec![&12, &13]);
}

#[test]
fn frame_references() {
    let mut frames = FrameTracker::new();
    frames.track(PhysicalAddress::new(0x5000));
    frames.maybe_add_frame_reference(PhysicalAddress::new(0x5000));
    frames.maybe_add_frame_reference(PhysicalAddress::new(0x6000));
    assert!(!frames.release_tracked_frame(PhysicalAddress::new(0x5000)));
    assert!(frames.release_tracked_frame(PhysicalAddress::new(0x5000)));
    // a frame that is not counted is simply free
    assert!(frames.release_tracked_frame(PhysicalAddress::new(0x6000)));
}

#[test]
fn file_pages_are_tracked_by_key() {
    let mut files = FilePageTracker::new();
    let (d, t) = (DriverID::new(1), DriverMappingToken::new(2));
    track_file_backed_page(&mut files, d, t, 0x1000, PhysicalAddress::new(0x9000));
    assert_eq!(get_file_backed_page(&files, d, t, 0x1000), Some(PhysicalAddress::new(0x9000)));
    assert_eq!(get_file_backed_page(&files, d, t, 0x2000), None);
    untrack_file_backed_page(&mut files, d, t, 0x1000);
    assert_eq!(get_file_backed_page(&files, d, t, 0x1000), None);
}

#[test]
fn io_errors_and_results() {
    assert_eq!(IOError::try_from(2), Ok(IOError::NotFound));
    assert_eq!(IOError::try_from(0), Ok(IOError::Unknown));
    assert_eq!(IOError::try_from(42), Ok(IOError::Unknown));
    assert_eq!(IOError::UnsupportedCommand.code(), 7);
    assert_eq!(IOError::Unknown.code(), 0xffffffff);
    assert_eq!(decode_io_result(5), Ok(5));
    assert_eq!(decode_io_result(0x80000002), Err(IOError::NotFound));
    assert_eq!(decode_io_result(0x80000063), Err(IOError::Unknown));
    let status = FileStatus::new();
    assert_eq!((status.byte_size, status.file_type, status.drive_id), (0, 0, 0));
}

#[test]
fn program_args_stop_at_nul() {
    let mut a: Args = args(2, vec![b"hello\0junk".to_vec(), b"x".to_vec(), b"unused".to_vec()]);
    assert_eq!(a.next(), Some(b"hello".to_vec()));
    assert_eq!(a.next(), Some(b"x".to_vec()));
    assert_eq!(a.next(), None);
}

#[test]
fn misc_kernel_values() {
    let drive = CurrentDrive::empty();
    assert_eq!(drive.name, "");
    assert_eq!(drive.driver_id, DriverID::new(0));
    let regs = EnvironmentRegisters {
        eax: 0, ecx: 0, edx: 0, ebx: 0, ebp: 0, esi: 0, edi: 0, eip: 0x1000, cs: 0x1b, flags: 0x200,
        esp: 0xbffffffc, ss: 0x23, es: 0x23, ds: 0x23, fs: 0x23, gs: 0x23,
    };
    assert_eq!(regs.eip, 0x1000);
    let mut mem = PhysicalMemory::new(0, 0x1000);
    assert!(mem.allocate_frame().is_some());
}

#[test]
fn completing_an_operation_stores_its_code() {
    let mut mem = PhysicalMemory::new(0x100000, 0x200000);
    let frame = mem.new_directory().unwrap();
    let op = AsyncOp { op_code: 1, semaphore: PhysicalAddress::new(frame.as_u32() + 8), arg0: 0, arg1: 0, arg2: 0 };
    op.complete(&mut mem, 0x8000_0005);
    assert_eq!(mem.read_entry(frame.as_u32(), 2), 0x8000_0005);
}

#[test]
fn driver_requests_and_replies() {
    assert_eq!(
        decode_request(Message(3, 7, 0x1000, 512)),
        Some(DriverRequest::Read { instance: 7, buffer_addr: 0x1000, buffer_len: 512 })
    );
    assert_eq!(decode_request(Message(8, 2, 0xffffffff, 0)), Some(DriverRequest::Dup { instance: 2, dup_into: None }));
    assert_eq!(decode_request(Message(8, 2, 5, 0)), Some(DriverRequest::Dup { instance: 2, dup_into: Some(5) }));
    assert_eq!(decode_request(Message(9, 0, 0, 0)), None);
    assert_eq!(encode_reply(Ok(42)), Message(0x00524553, 42, 0, 0));
    assert_eq!(encode_reply(Err(IOError::NotFound)), Message(0x00524553, 0, 2, 0));
    assert_eq!(raw_device_path(3), b'3');
}
