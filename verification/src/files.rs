//! The drive a task is currently working in.
use vstd::prelude::*;

verus! {

/// Identifies a filesystem or device driver
#[derive(Copy, Clone, Debug, PartialEq, Eq, Structural, PartialOrd, Ord, Hash)]
pub struct DriverID(pub u32);

impl DriverID {
    pub fn new(id: u32) -> (r: Self)
        ensures
            r.0 == id,
    {
        DriverID(id)
    }
}

/// A token handed out by a driver when a file is mapped into memory
#[derive(Copy, Clone, Debug, PartialEq, Eq, Structural, PartialOrd, Ord, Hash)]
pub struct DriverMappingToken(pub u32);

impl DriverMappingToken {
    pub fn new(token: u32) -> (r: Self)
        ensures
            r.0 == token,
    {
        DriverMappingToken(token)
    }
}

pub struct CurrentDrive {
    pub name: String,
    pub driver_id: DriverID,
}

impl CurrentDrive {
    pub fn empty() -> (r: Self)
        ensures
            r.name@ == Seq::<char>::empty(),
            r.driver_id.0 == 0,
    {
        CurrentDrive { name: String::new(), driver_id: DriverID::new(0) }
    }
}

} // verus!
