//! What drivers report back: the errors an IO operation can end with, the
//! status of a file, the decoding of an operation's return value, and the
//! messages that carry requests to a driver and its replies.
use vstd::prelude::*;
use crate::messaging::Message;

verus! {

/// The errors an IO operation can end with. No error has the code 0.
#[derive(Copy, Clone, Debug, PartialEq, Eq, Structural)]
pub enum IOError {
    /// An error occurred within the file system
    FileSystemError,
    /// A File or Directory with the given path does not exist
    NotFound,
    /// The file handle used for IO is not currently open
    FileHandleInvalid,
    /// The file handle used for IO is not the correct type for that operation
    FileHandleWrongType,
    /// An IO operation failed
    OperationFailed,
    /// Attempted a FS method that isn't supported by the driver
    UnsupportedOperation,
    /// Sent a control command that was not recognized
    UnsupportedCommand,
    /// Any other code
    Unknown,
}

/// The error with a given code; every code that names no error is `Unknown`
pub open spec fn error_for_code(value: u32) -> IOError {
    if value == 1 {
        IOError::FileSystemError
    } else if value == 2 {
        IOError::NotFound
    } else if value == 3 {
        IOError::FileHandleInvalid
    } else if value == 4 {
        IOError::FileHandleWrongType
    } else if value == 5 {
        IOError::OperationFailed
    } else if value == 6 {
        IOError::UnsupportedOperation
    } else if value == 7 {
        IOError::UnsupportedCommand
    } else {
        IOError::Unknown
    }
}

/// The code of an error: its position counted from 1, and `0xffffffff` for
/// `Unknown`
pub open spec fn code_of(e: IOError) -> u32 {
    match e {
        IOError::FileSystemError => 1,
        IOError::NotFound => 2,
        IOError::FileHandleInvalid => 3,
        IOError::FileHandleWrongType => 4,
        IOError::OperationFailed => 5,
        IOError::UnsupportedOperation => 6,
        IOError::UnsupportedCommand => 7,
        IOError::Unknown => 0xffffffff,
    }
}

impl IOError {
    /// The code that stands for the error
    pub fn code(&self) -> (r: u32)
        ensures
            r == code_of(*self),
    {
        match self {
            IOError::FileSystemError => 1,
            IOError::NotFound => 2,
            IOError::FileHandleInvalid => 3,
            IOError::FileHandleWrongType => 4,
            IOError::OperationFailed => 5,
            IOError::UnsupportedOperation => 6,
            IOError::UnsupportedCommand => 7,
            IOError::Unknown => 0xffffffff,
        }
    }

    /// The error with a given code. The conversion never fails: a code that
    /// names no error gives `Unknown`.
    pub fn try_from(value: u32) -> (r: Result<IOError, ()>)
        ensures
            r == Ok::<IOError, ()>(error_for_code(value)),
    {
        match value {
            1 => Ok(IOError::FileSystemError),
            2 => Ok(IOError::NotFound),
            3 => Ok(IOError::FileHandleInvalid),
            4 => Ok(IOError::FileHandleWrongType),
            5 => Ok(IOError::OperationFailed),
            6 => Ok(IOError::UnsupportedOperation),
            7 => Ok(IOError::UnsupportedCommand),
            _ => Ok(IOError::Unknown),
        }
    }
}

/// Converting an error to its code and back gives the same error
pub proof fn law_code_round_trip(e: IOError)
    ensures
        error_for_code(code_of(e)) == e,
{
}

/// The status of a file, as a driver reports it
#[derive(Copy, Clone, Debug, PartialEq, Eq, Structural)]
pub struct FileStatus {
    /// Size of the file, in bytes
    pub byte_size: u32,
    /// Bitmap indicating the type of the file
    pub file_type: u32,
    /// ID of the drive this file is found on
    pub drive_id: u32,
}

impl FileStatus {
    pub fn new() -> (r: Self)
        ensures
            r == (FileStatus { byte_size: 0, file_type: 0, drive_id: 0 }),
    {
        FileStatus { byte_size: 0, file_type: 0, drive_id: 0 }
    }
}

/// The bit of an operation's return value that marks an error
pub const ERROR_FLAG: u32 = 0x80000000;

/// The meaning of an operation's return value: with the error bit set, the
/// error whose code is in the remaining bits; otherwise a successful result
pub open spec fn io_outcome(return_value: u32) -> Result<u32, IOError> {
    if return_value >= 0x80000000 {
        Err(error_for_code((return_value - 0x80000000) as u32))
    } else {
        Ok(return_value)
    }
}

/// Decode the value that a completed operation returned
pub fn decode_io_result(return_value: u32) -> (r: Result<u32, IOError>)
    ensures
        r == io_outcome(return_value),
{
    if return_value & ERROR_FLAG != 0 {
        let code = return_value & 0x7fffffff;
        assert(return_value & 0x80000000 != 0 <==> return_value >= 0x80000000) by (bit_vector);
        assert(return_value >= 0x80000000 ==> return_value & 0x7fffffff == return_value - 0x80000000) by (bit_vector);
        let error = match IOError::try_from(code) {
            Ok(e) => e,
            Err(_) => IOError::Unknown,
        };
        Err(error)
    } else {
        assert(return_value & 0x80000000 != 0 <==> return_value >= 0x80000000) by (bit_vector);
        Ok(return_value)
    }
}

/// A request to a driver, as its message encodes it. Addresses and lengths
/// stay numbers: reading the memory they name is the driver's own work.
#[derive(Copy, Clone, Debug, PartialEq, Eq, Structural)]
pub enum DriverRequest {
    /// Open the path of `path_len` bytes at `path_addr`
    Open { path_addr: u32, path_len: u32 },
    /// Open a device by its number, as the one-character path of its digit
    OpenRaw { id: u32 },
    /// Read into the buffer of `buffer_len` bytes at `buffer_addr`
    Read { instance: u32, buffer_addr: u32, buffer_len: u32 },
    /// Write the buffer of `buffer_len` bytes at `buffer_addr`
    Write { instance: u32, buffer_addr: u32, buffer_len: u32 },
    /// Close an open handle
    Close { handle: u32 },
    /// Move the cursor, by a seek method and its argument
    Seek { instance: u32, method: u32, delta: u32 },
    /// Fill in the status of a file at `status_addr`
    Stat { instance: u32, status_addr: u32 },
    /// Duplicate an open instance, into a given handle or a new one
    Dup { instance: u32, dup_into: Option<u32> },
}

/// The request a message carries, by its first word; none for an unknown one
pub open spec fn request_of(m: Message) -> Option<DriverRequest> {
    if m.0 == 1 {
        Some(DriverRequest::Open { path_addr: m.1, path_len: m.2 })
    } else if m.0 == 2 {
        Some(DriverRequest::OpenRaw { id: m.1 })
    } else if m.0 == 3 {
        Some(DriverRequest::Read { instance: m.1, buffer_addr: m.2, buffer_len: m.3 })
    } else if m.0 == 4 {
        Some(DriverRequest::Write { instance: m.1, buffer_addr: m.2, buffer_len: m.3 })
    } else if m.0 == 5 {
        Some(DriverRequest::Close { handle: m.1 })
    } else if m.0 == 6 {
        Some(DriverRequest::Seek { instance: m.1, method: m.2, delta: m.3 })
    } else if m.0 == 7 {
        Some(DriverRequest::Stat { instance: m.1, status_addr: m.2 })
    } else if m.0 == 8 {
        Some(DriverRequest::Dup { instance: m.1, dup_into: if m.2 == 0xffffffff { None } else { Some(m.2) } })
    } else {
        None
    }
}

/// Read the request a driver received; an unknown request gets no reply
pub fn decode_request(m: Message) -> (r: Option<DriverRequest>)
    ensures
        r == request_of(m),
{
    match m.0 {
        1 => Some(DriverRequest::Open { path_addr: m.1, path_len: m.2 }),
        2 => Some(DriverRequest::OpenRaw { id: m.1 }),
        3 => Some(DriverRequest::Read { instance: m.1, buffer_addr: m.2, buffer_len: m.3 }),
        4 => Some(DriverRequest::Write { instance: m.1, buffer_addr: m.2, buffer_len: m.3 }),
        5 => Some(DriverRequest::Close { handle: m.1 }),
        6 => Some(DriverRequest::Seek { instance: m.1, method: m.2, delta: m.3 }),
        7 => Some(DriverRequest::Stat { instance: m.1, status_addr: m.2 }),
        8 => Some(DriverRequest::Dup { instance: m.1, dup_into: if m.2 == 0xffffffff { None } else { Some(m.2) } }),
        _ => None,
    }
}

/// The one-byte path a raw open names: the digit of the device number
pub fn raw_device_path(id: u32) -> (r: u8)
    requires
        id % 256 + 0x30 <= 0xff,
    ensures
        r == id % 256 + 0x30,
{
    (id % 256) as u8 + 0x30
}

/// The first word of every reply from a driver
pub const REPLY_TAG: u32 = 0x00524553;

/// The reply to a request: the result in the second word, or an error's code
/// in the third
pub open spec fn reply_for(r: Result<u32, IOError>) -> Message {
    match r {
        Ok(v) => Message(REPLY_TAG, v, 0, 0),
        Err(e) => Message(REPLY_TAG, 0, code_of(e), 0),
    }
}

/// Write the reply to a request. Operations that give back nothing answer
/// `Ok(0)`.
pub fn encode_reply(r: Result<u32, IOError>) -> (m: Message)
    ensures
        m == reply_for(r),
{
    match r {
        Ok(v) => Message(REPLY_TAG, v, 0, 0),
        Err(e) => Message(REPLY_TAG, 0, e.code(), 0),
    }
}

} // verus!
