//! Sharing of physical frames: how many pages refer to each counted frame,
//! and which frame holds each page of a shared file mapping, so that tasks
//! mapping the same file share its pages.
use vstd::prelude::*;
use std::collections::BTreeMap;
use crate::address::PhysicalAddress;
use crate::files::{DriverID, DriverMappingToken};

verus! {

broadcast use vstd::laws_cmp::group_laws_cmp;

/// The number of page table entries that refer to each counted frame
pub struct FrameTracker {
    counts: BTreeMap<u32, u32>,
}

impl View for FrameTracker {
    type V = Map<u32, u32>;

    /// The reference count of each counted frame, by its address
    closed spec fn view(&self) -> Map<u32, u32> {
        self.counts@
    }
}

/// The counts after one reference to `frame` is dropped: a frame with more
/// than one reference keeps the rest, any other frame stops being counted
pub open spec fn released_counts(counts: Map<u32, u32>, frame: u32) -> Map<u32, u32> {
    if counts.contains_key(frame) && counts[frame] > 1 {
        counts.insert(frame, (counts[frame] - 1) as u32)
    } else {
        counts.remove(frame)
    }
}

/// Counting references undoes itself: a reference added to a counted frame (one that has a
/// reference) and then dropped leaves the counts as they were, and a frame just tracked is
/// freed, and no longer counted, by its first release; other frames' counts never change.
pub proof fn law_reference_then_release(counts: Map<u32, u32>, frame: u32, other: u32)
    requires
        other != frame,
    ensures
        counts.contains_key(frame) && 1 <= counts[frame] < u32::MAX ==> released_counts(
            counts.insert(frame, (counts[frame] + 1) as u32),
            frame,
        ) == counts,
        released_counts(counts.insert(frame, 1), frame) == counts.remove(frame),
        released_counts(counts, frame).contains_key(other) == counts.contains_key(other),
        counts.contains_key(other) ==> released_counts(counts, frame)[other] == counts[other],
{
    if counts.contains_key(frame) && 1 <= counts[frame] < u32::MAX {
        let up = counts.insert(frame, (counts[frame] + 1) as u32);
        assert(released_counts(up, frame) =~= counts);
    }
    let t = counts.insert(frame, 1);
    assert(t.contains_key(frame) && t[frame] == 1);
    assert(released_counts(t, frame) == t.remove(frame));
    assert(t.remove(frame) =~= counts.remove(frame));
}

impl FrameTracker {
    pub fn new() -> (r: Self)
        ensures
            r@ == Map::<u32, u32>::empty(),
    {
        FrameTracker { counts: BTreeMap::new() }
    }

    /// Start counting a freshly allocated frame, which has one reference
    pub fn track(&mut self, frame: PhysicalAddress)
        ensures
            final(self)@ == old(self)@.insert(frame.0, 1),
    {
        self.counts.insert(frame.0, 1);
    }

    /// Add a reference to a frame, if it is counted
    pub fn maybe_add_frame_reference(&mut self, frame: PhysicalAddress)
        ensures
            final(self)@ == if old(self)@.contains_key(frame.0) && old(self)@[frame.0] < u32::MAX {
                old(self)@.insert(frame.0, (old(self)@[frame.0] + 1) as u32)
            } else {
                old(self)@
            },
    {
        let count = match self.counts.get(&frame.0) {
            Some(c) => *c,
            None => return,
        };
        if count < u32::MAX {
            self.counts.insert(frame.0, count + 1);
        }
    }

    /// Drop a reference to a frame. Returns true when no reference is left,
    /// so the frame is free again.
    pub fn release_tracked_frame(&mut self, frame: PhysicalAddress) -> (r: bool)
        ensures
            final(self)@ == released_counts(old(self)@, frame.0),
            r == !(old(self)@.contains_key(frame.0) && old(self)@[frame.0] > 1),
    {
        let count = match self.counts.get(&frame.0) {
            Some(c) => *c,
            None => 0,
        };
        if count > 1 {
            self.counts.insert(frame.0, count - 1);
            false
        } else {
            self.counts.remove(&frame.0);
            true
        }
    }
}

/// The key of a page of a file mapping: the driver, the mapping token it
/// handed out, and the byte offset of the page in the file
pub open spec fn page_key(driver_id: DriverID, mapping_token: DriverMappingToken, offset_in_file: u32) -> (u32, u32, u32) {
    (driver_id.0, mapping_token.0, offset_in_file)
}

/// The frames that hold pages of shared file mappings, so that every task
/// mapping the same page of a file gets the same frame
pub struct FilePageTracker {
    pages: BTreeMap<(u32, u32, u32), u32>,
}

impl View for FilePageTracker {
    type V = Map<(u32, u32, u32), u32>;

    /// The frame holding each page, under its key
    closed spec fn view(&self) -> Map<(u32, u32, u32), u32> {
        self.pages@
    }
}

impl FilePageTracker {
    pub fn new() -> (r: Self)
        ensures
            r@ == Map::<(u32, u32, u32), u32>::empty(),
    {
        FilePageTracker { pages: BTreeMap::new() }
    }
}

/// The frame holding a page of a shared file mapping, if one is loaded
pub fn get_file_backed_page(
    tracker: &FilePageTracker,
    driver_id: DriverID,
    mapping_token: DriverMappingToken,
    offset_in_file: u32,
) -> (r: Option<PhysicalAddress>)
    ensures
        match r {
            Some(p) => tracker@.contains_key(page_key(driver_id, mapping_token, offset_in_file))
                && tracker@[page_key(driver_id, mapping_token, offset_in_file)] == p.0,
            None => !tracker@.contains_key(page_key(driver_id, mapping_token, offset_in_file)),
        },
{
    let key = (driver_id.0, mapping_token.0, offset_in_file);
    match tracker.pages.get(&key) {
        Some(p) => Some(PhysicalAddress::new(*p)),
        None => None,
    }
}

/// Record the frame that now holds a page of a shared file mapping
pub fn track_file_backed_page(
    tracker: &mut FilePageTracker,
    driver_id: DriverID,
    mapping_token: DriverMappingToken,
    offset_in_file: u32,
    paddr: PhysicalAddress,
)
    ensures
        final(tracker)@ == old(tracker)@.insert(page_key(driver_id, mapping_token, offset_in_file), paddr.0),
{
    tracker.pages.insert((driver_id.0, mapping_token.0, offset_in_file), paddr.0);
}

/// Forget the frame of a page of a shared file mapping, once it is released
pub fn untrack_file_backed_page(
    tracker: &mut FilePageTracker,
    driver_id: DriverID,
    mapping_token: DriverMappingToken,
    offset_in_file: u32,
)
    ensures
        final(tracker)@ == old(tracker)@.remove(page_key(driver_id, mapping_token, offset_in_file)),
{
    let key = (driver_id.0, mapping_token.0, offset_in_file);
    tracker.pages.remove(&key);
}

/// A page of a file recorded by `track_file_backed_page` is found by
/// `get_file_backed_page` until `untrack_file_backed_page` forgets it; other
/// pages are not affected by either
pub proof fn law_file_page_lookup(
    tracker: Map<(u32, u32, u32), u32>,
    key: (u32, u32, u32),
    other: (u32, u32, u32),
    frame: u32,
)
    requires
        key != other,
    ensures
        tracker.insert(key, frame).contains_key(key) && tracker.insert(key, frame)[key] == frame,
        !tracker.insert(key, frame).remove(key).contains_key(key),
        tracker.insert(key, frame).contains_key(other) == tracker.contains_key(other),
        tracker.remove(key).contains_key(other) == tracker.contains_key(other),
        tracker.contains_key(other) ==> tracker.insert(key, frame)[other] == tracker[other]
            && tracker.remove(key)[other] == tracker[other],
{
}

} // verus!
