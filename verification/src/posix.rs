//! The small POSIX layer of the C library: file status, terminals, sleeping and time.

use vstd::prelude::*;

verus! {

/// A file's status as `stat` fills it.
pub struct Stat {
    pub st_dev: u32,
    pub st_ino: u32,
    pub st_mode: u32,
    pub st_nlink: u32,
    pub st_uid: u32,
    pub st_gid: u32,
    pub st_rdev: u32,
    pub st_size: i32,
    pub st_blksize: u32,
    pub st_blocks: u32,
    pub st_atime: i32,
    pub st_mtime: i32,
    pub st_ctime: i32,
}

/// The type bits of a regular file.
pub const S_IFREG: u32 = 0o100000;

/// The type bits of a directory.
pub const S_IFDIR: u32 = 0o040000;

/// The kernel's file type of a directory.
pub const FILE_TYPE_DIR: u32 = 2;

/// The status `stat` reports for what the kernel said of a file: a directory (`rwxr-xr-x`) or
/// a regular file (`rw-r--r--`), one link, blocks of 512 bytes, all times the modification time.
pub fn stat_from_status(drive_id: u32, file_type: u32, byte_size: u32, modification_time: u32) -> (r:
    Stat)
    requires
        byte_size + 511 <= u32::MAX,
    ensures
        r == (Stat {
            st_dev: drive_id,
            st_ino: 0,
            st_mode: if file_type == FILE_TYPE_DIR { S_IFDIR | 0o755 } else { S_IFREG | 0o644 },
            st_nlink: 1,
            st_uid: 0,
            st_gid: 0,
            st_rdev: 0,
            st_size: byte_size as i32,
            st_blksize: 512,
            st_blocks: ((byte_size + 511) / 512) as u32,
            st_atime: modification_time as i32,
            st_mtime: modification_time as i32,
            st_ctime: modification_time as i32,
        }),
{
    let mode = if file_type == FILE_TYPE_DIR {
        S_IFDIR | 0o755
    } else {
        S_IFREG | 0o644
    };
    Stat {
        st_dev: drive_id,
        st_ino: 0,
        st_mode: mode,
        st_nlink: 1,
        st_uid: 0,
        st_gid: 0,
        st_rdev: 0,
        st_size: byte_size as i32,
        st_blksize: 512,
        st_blocks: (byte_size + 511) / 512,
        st_atime: modification_time as i32,
        st_mtime: modification_time as i32,
        st_ctime: modification_time as i32,
    }
}

/// What `fstat` reports for any descriptor: a regular file with nothing else known.
pub fn fstat_status() -> (r: Stat)
    ensures
        r == (Stat {
            st_dev: 0,
            st_ino: 0,
            st_mode: S_IFREG | 0o644,
            st_nlink: 0,
            st_uid: 0,
            st_gid: 0,
            st_rdev: 0,
            st_size: 0,
            st_blksize: 0,
            st_blocks: 0,
            st_atime: 0,
            st_mtime: 0,
            st_ctime: 0,
        }),
{
    Stat {
        st_dev: 0,
        st_ino: 0,
        st_mode: S_IFREG | 0o644,
        st_nlink: 0,
        st_uid: 0,
        st_gid: 0,
        st_rdev: 0,
        st_size: 0,
        st_blksize: 0,
        st_blocks: 0,
        st_atime: 0,
        st_mtime: 0,
        st_ctime: 0,
    }
}

/// Descriptors 0 to 2 are consoles.
pub fn isatty(fd: i32) -> (r: i32)
    ensures
        r == if 0 <= fd <= 2 { 1i32 } else { 0i32 },
{
    if fd >= 0 && fd <= 2 {
        1
    } else {
        0
    }
}

/// The milliseconds `usleep` sleeps for: at least one.
pub fn usleep_ms(usec: u32) -> (r: u32)
    ensures
        r == if usec < 1000 { 1 } else { usec / 1000 },
{
    if usec < 1000 {
        1
    } else {
        usec / 1000
    }
}

/// The milliseconds `sleep` sleeps for.
pub fn sleep_ms(seconds: u32) -> (r: u32)
    requires
        seconds * 1000 <= u32::MAX,
    ensures
        r == seconds * 1000,
{
    seconds * 1000
}

/// What `getcwd` writes into a buffer of `size` bytes: `C:\` and a NUL, or nothing when it has
/// fewer than 4 bytes.
pub fn getcwd(buf: &mut Vec<u8>, size: usize) -> (r: bool)
    requires
        size >= 4 ==> old(buf)@.len() >= 4,
    ensures
        r == (size >= 4),
        size < 4 ==> final(buf)@ == old(buf)@,
        size >= 4 ==> final(buf)@ == seq![67u8, 58, 92, 0] + old(buf)@.skip(4),
{
    if size < 4 {
        return false;
    }
    buf.set(0, 67);
    buf.set(1, 58);
    buf.set(2, 92);
    buf.set(3, 0);
    proof {
        assert(buf@ =~= seq![67u8, 58, 92, 0] + old(buf)@.skip(4));
    }
    true
}

/// The time of day as `localtime` leaves it: only seconds, minutes and hours are set.
#[allow(non_camel_case_types)]
pub struct tm {
    pub tm_sec: i32,
    pub tm_min: i32,
    pub tm_hour: i32,
    pub tm_mday: i32,
    pub tm_mon: i32,
    pub tm_year: i32,
    pub tm_wday: i32,
    pub tm_yday: i32,
    pub tm_isdst: i32,
}

impl tm {
    /// The value the shared `tm` holds before any call: the first of January 1995.
    pub fn initial() -> (r: Self)
        ensures
            r == (tm {
                tm_sec: 0,
                tm_min: 0,
                tm_hour: 0,
                tm_mday: 1,
                tm_mon: 0,
                tm_year: 95,
                tm_wday: 0,
                tm_yday: 0,
                tm_isdst: 0,
            }),
    {
        tm {
            tm_sec: 0,
            tm_min: 0,
            tm_hour: 0,
            tm_mday: 1,
            tm_mon: 0,
            tm_year: 95,
            tm_wday: 0,
            tm_yday: 0,
            tm_isdst: 0,
        }
    }
}

/// The seconds `time` reports for a count of ticks at 100 a second.
pub fn time(ticks: u32) -> (r: i32)
    ensures
        r == ticks / 100,
{
    (ticks / 100) as i32
}

/// The clock `clock` reports for a count of ticks, cut to 32 bits.
pub fn clock(ticks: u32) -> (r: u32)
    ensures
        r == (ticks * 10000) as u32,
{
    (ticks as u64 * 10000) as u32
}

/// Rust's remainder on `int`: the sign of the dividend.
pub open spec fn trunc_rem(a: int, b: int) -> int {
    if a >= 0 {
        a % b
    } else {
        -((-a) % b)
    }
}

/// Rust's quotient on `int`: rounded toward zero.
pub open spec fn trunc_div(a: int, b: int) -> int {
    if a >= 0 {
        a / b
    } else {
        -((-a) / b)
    }
}

fn magnitude_of(a: i32) -> (r: u32)
    requires
        a < 0,
    ensures
        r == -a,
{
    if a == i32::MIN {
        0x8000_0000
    } else {
        (-a) as u32
    }
}

fn rem_i32(a: i32, b: i32) -> (r: i32)
    requires
        b > 0,
    ensures
        r == trunc_rem(a as int, b as int),
{
    if a >= 0 {
        a % b
    } else {
        let m = magnitude_of(a) % (b as u32);
        -(m as i32)
    }
}

fn div_i32(a: i32, b: i32) -> (r: i32)
    requires
        b > 1,
    ensures
        r == trunc_div(a as int, b as int),
{
    if a >= 0 {
        a / b
    } else {
        let m = magnitude_of(a);
        let q = m / (b as u32);
        assert(q <= 0x4000_0000) by (nonlinear_arith)
            requires
                q == m / (b as u32),
                b > 1,
                m <= 0x8000_0000,
        ;
        -(q as i32)
    }
}

/// A time of day, not negative, taken apart and put back together.
proof fn lemma_day_parts(t: int)
    requires
        0 <= t,
    ensures
        0 <= t % 60 < 60,
        0 <= (t / 60) % 60 < 60,
        0 <= (t / 3600) % 24 < 24,
        ((t / 3600) % 24) * 3600 + ((t / 60) % 60) * 60 + t % 60 == t % 86400,
{
    let s = t % 60;
    let m = (t / 60) % 60;
    let h = (t / 3600) % 24;
    vstd::arithmetic::div_mod::lemma_fundamental_div_mod(t, 60);
    vstd::arithmetic::div_mod::lemma_fundamental_div_mod(t / 60, 60);
    vstd::arithmetic::div_mod::lemma_div_denominator(t, 60, 60);
    vstd::arithmetic::div_mod::lemma_fundamental_div_mod(t / 3600, 24);
    vstd::arithmetic::div_mod::lemma_div_denominator(t, 3600, 24);
    let q = t / 86400;
    assert(t == q * 86400 + (h * 3600 + m * 60 + s)) by (nonlinear_arith)
        requires
            t == 60 * (t / 60) + s,
            t / 60 == 60 * ((t / 60) / 60) + m,
            (t / 60) / 60 == t / 3600,
            t / 3600 == 24 * ((t / 3600) / 24) + h,
            (t / 3600) / 24 == q,
    ;
    vstd::arithmetic::div_mod::lemma_fundamental_div_mod_converse(t, 86400, q, h * 3600 + m * 60 + s);
}

/// `mktime` undoes `localtime`: the seconds, minutes and hours that `localtime` fills in from
/// `t` give back `t` within its day, and each is in its range for a time not before the epoch;
/// before it, each part is negative or 0 and they give back `t`'s remainder by a day.
pub proof fn law_time_of_day_round_trip(t: i32)
    ensures
        ({
            let sec = trunc_rem(t as int, 60);
            let min = trunc_rem(trunc_div(t as int, 60), 60);
            let hour = trunc_rem(trunc_div(t as int, 3600), 24);
            &&& hour * 3600 + min * 60 + sec == trunc_rem(t as int, 86400)
            &&& t >= 0 ==> 0 <= sec < 60 && 0 <= min < 60 && 0 <= hour < 24
            &&& t < 0 ==> -60 < sec <= 0 && -60 < min <= 0 && -24 < hour <= 0
        }),
{
    if t >= 0 {
        lemma_day_parts(t as int);
    } else {
        lemma_day_parts(-(t as int));
    }
}

/// Fills seconds, minutes and hours of the shared `tm` from `t` seconds, with Rust's
/// remainders (negative for a negative `t`); the other fields keep their values.
pub fn localtime(out: &mut tm, t: i32)
    ensures
        *final(out) == (tm {
            tm_sec: trunc_rem(t as int, 60) as i32,
            tm_min: trunc_rem(trunc_div(t as int, 60), 60) as i32,
            tm_hour: trunc_rem(trunc_div(t as int, 3600), 24) as i32,
            ..*old(out)
        }),
{
    out.tm_sec = rem_i32(t, 60);
    out.tm_min = rem_i32(div_i32(t, 60), 60);
    out.tm_hour = rem_i32(div_i32(t, 3600), 24);
}

/// `localtime`.
pub fn gmtime(out: &mut tm, t: i32)
    ensures
        *final(out) == (tm {
            tm_sec: trunc_rem(t as int, 60) as i32,
            tm_min: trunc_rem(trunc_div(t as int, 60), 60) as i32,
            tm_hour: trunc_rem(trunc_div(t as int, 3600), 24) as i32,
            ..*old(out)
        }),
{
    localtime(out, t)
}

/// The seconds of the time of day in a `tm`.
pub fn mktime(t: &tm) -> (r: i32)
    requires
        i32::MIN <= t.tm_hour * 3600 + t.tm_min * 60 + t.tm_sec <= i32::MAX,
        i32::MIN <= t.tm_hour * 3600 <= i32::MAX,
        i32::MIN <= t.tm_min * 60 <= i32::MAX,
        i32::MIN <= t.tm_hour * 3600 + t.tm_min * 60 <= i32::MAX,
    ensures
        r == t.tm_hour * 3600 + t.tm_min * 60 + t.tm_sec,
{
    t.tm_hour * 3600 + t.tm_min * 60 + t.tm_sec
}

/// `strftime` writes an empty string: a NUL when the buffer has room, and returns 0.
pub fn strftime(s: &mut Vec<u8>, maxsize: usize) -> (r: usize)
    requires
        maxsize > 0 ==> old(s)@.len() >= 1,
    ensures
        r == 0,
        maxsize == 0 ==> final(s)@ == old(s)@,
        maxsize > 0 ==> final(s)@ == old(s)@.update(0, 0u8),
{
    if maxsize > 0 {
        s.set(0, 0);
    }
    0
}

/// What `mmap` returns when the kernel maps nothing.
pub const MAP_FAILED: u32 = 0xFFFF_FFFF;

/// The address `mmap` asks the kernel for: none for a null hint.
pub fn mmap_request(addr: u32) -> (r: Option<u32>)
    ensures
        r == if addr == 0 { None } else { Some(addr) },
{
    if addr == 0 {
        None
    } else {
        Some(addr)
    }
}

/// What `mmap` returns for the kernel's answer.
pub fn mmap_result(mapped: Result<u32, ()>) -> (r: u32)
    ensures
        r == match mapped {
            Ok(a) => a,
            Err(_) => MAP_FAILED,
        },
{
    match mapped {
        Ok(a) => a,
        Err(_) => MAP_FAILED,
    }
}

} // verus!
