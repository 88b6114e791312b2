//! Task identifiers, and the generator that hands out fresh ones.
use vstd::prelude::*;

verus! {

/// The unique identifier of a Task
#[derive(Copy, Clone, Debug, PartialEq, Eq, Structural, PartialOrd, Ord, Hash)]
pub struct TaskID(pub u32);

impl TaskID {
    pub fn new(id: u32) -> (r: Self)
        ensures
            r.0 == id,
    {
        TaskID(id)
    }

    /// The raw number behind this identifier
    pub fn as_u32(&self) -> (r: u32)
        ensures
            r == self.0,
    {
        self.0
    }
}

/// Hands out task identifiers in increasing order, starting at 1. The counter
/// wraps around once every value of a `u32` has been handed out.
pub struct IdGenerator {
    next_value: u32,
}

impl IdGenerator {
    pub closed spec fn peek(&self) -> u32 {
        self.next_value
    }

    pub fn new() -> (r: Self)
        ensures
            r.peek() == 1,
    {
        IdGenerator { next_value: 1 }
    }

    /// Return the next identifier, and advance the counter
    pub fn next(&mut self) -> (r: TaskID)
        ensures
            r.0 == old(self).peek(),
            final(self).peek() == id_step(old(self).peek()),
    {
        let id = self.next_value;
        self.next_value = if id == u32::MAX { 0 } else { id + 1 };
        TaskID::new(id)
    }
}

/// The counter after one call of `next`: one more, wrapping to 0 after `u32::MAX`
pub open spec fn id_step(v: u32) -> u32 {
    if v == u32::MAX {
        0
    } else {
        (v + 1) as u32
    }
}

/// The identifier the `k`-th call of `next` (from 0) hands out after `IdGenerator::new`
pub open spec fn nth_id(k: nat) -> u32
    decreases k,
{
    if k == 0 {
        1
    } else {
        id_step(nth_id((k - 1) as nat))
    }
}

/// Identifiers are handed out from 1 upwards, each one more than the last, so that they are
/// distinct and increasing until the counter wraps after `u32::MAX`.
pub proof fn law_ids_increase(j: nat, k: nat)
    requires
        j < k < u32::MAX,
    ensures
        nth_id(k) == k + 1,
        nth_id(j) < nth_id(k),
{
    lemma_nth_id(k);
    lemma_nth_id(j);
}

proof fn lemma_nth_id(k: nat)
    requires
        k < u32::MAX,
    ensures
        nth_id(k) == k + 1,
    decreases k,
{
    if k > 0 {
        lemma_nth_id((k - 1) as nat);
    }
}

} // verus!
