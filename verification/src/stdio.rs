//! The parts of the C library's stdio that decide: path translation for the kernel, names of
//! temporary files, the text of a debug word, and the state of a `FILE` between its reads and
//! writes.

use vstd::prelude::*;
use crate::cstr::{c_len, lemma_nul_from, nul_from, terminated};
use crate::printf::{digit_value_of, digits_of, digits_value, format_uint};

verus! {

/// The path bytes with `/` turned into `\`.
pub open spec fn backslashed(path: Seq<u8>) -> Seq<u8> {
    Seq::new(path.len(), |i: int| if path[i] == 47 { 92u8 } else { path[i] })
}

/// The path needs a drive: it has none (`X:`), is not empty and does not start with `\`.
pub open spec fn needs_drive(path: Seq<u8>) -> bool {
    let p = path.take(c_len(path));
    !(p.len() >= 2 && p[1] == 58) && p.len() > 0 && p[0] != 92
}

/// What `translate_path` writes before the NUL into a buffer of `size` bytes: `C:` where the
/// path needs a drive and the buffer has room beyond it, then the path with `\` for `/`, cut to
/// leave room for the NUL.
pub open spec fn translated(path: Seq<u8>, size: int) -> Seq<u8> {
    let drive: Seq<u8> = if needs_drive(path) && 2 < size {
        seq![67u8, 58u8]
    } else {
        Seq::empty()
    };
    let full = drive + backslashed(path.take(c_len(path)));
    if full.len() <= size - 1 {
        full
    } else {
        full.take(size - 1)
    }
}

/// Translating a path into a buffer with room for it: no `/` is left; each other byte stays;
/// and `C:` comes in front exactly when the path is not empty, does not start with `\` and
/// has no `:` as its second byte.
pub proof fn law_translated_path(path: Seq<u8>, size: int)
    requires
        terminated(path),
        c_len(path) + 3 <= size,
    ensures
        ({
            let n = c_len(path);
            let t = translated(path, size);
            let drive = n > 0 && path[0] != 92 && !(n >= 2 && path[1] == 58);
            let off: int = if drive { 2 } else { 0 };
            &&& t.len() == n + off
            &&& drive ==> t[0] == 67 && t[1] == 58
            &&& forall|k: int| 0 <= k < n ==> #[trigger] t[off + k] == (if path[k] == 47 { 92u8 } else { path[k] })
            &&& forall|k: int| off <= k < t.len() ==> #[trigger] t[k] != 47
        }),
{
    lemma_nul_from(path, 0);
    let n = c_len(path);
    let p = path.take(n);
    let t = translated(path, size);
    let drive = n > 0 && path[0] != 92 && !(n >= 2 && path[1] == 58);
    assert(needs_drive(path) == drive) by {
        if n > 0 {
            assert(p[0] == path[0]);
        }
        if n >= 2 {
            assert(p[1] == path[1]);
        }
    }
    let off: int = if drive { 2 } else { 0 };
    let d: Seq<u8> = if drive { seq![67u8, 58u8] } else { Seq::empty() };
    assert(t =~= d + backslashed(p));
    assert forall|k: int| 0 <= k < n implies #[trigger] t[off + k] == (if path[k] == 47 { 92u8 } else { path[k] }) by {
        assert(t[off + k] == backslashed(p)[k]);
        assert(p[k] == path[k]);
    }
    assert forall|k: int| off <= k < t.len() implies #[trigger] t[k] != 47 by {
        assert(t[k] == backslashed(p)[k - off]);
    }
}

/// Translates a C path for the kernel into `buf`: `/` becomes `\`, and a path without a drive
/// letter gets `C:` in front. Writes a NUL after it and returns its length.
pub fn translate_path(path: &[u8], buf: &mut Vec<u8>) -> (r: usize)
    requires
        terminated(path@),
        old(buf)@.len() >= 1,
    ensures
        r == translated(path@, old(buf)@.len() as int).len(),
        final(buf)@ == translated(path@, old(buf)@.len() as int) + seq![0u8] + old(buf)@.skip(
            r + 1,
        ),
{
    proof {
        lemma_nul_from(path@, 0);
    }
    let ghost b0 = buf@;
    let ghost size = b0.len() as int;
    let path_len = crate::cstr::strlen(path);
    let ghost p = path@.take(path_len as int);
    let has_drive = path_len >= 2 && path[1] == 58;
    let mut out_len: usize = 0;
    let ghost drive: Seq<u8> = if needs_drive(path@) && 2 < size {
        seq![67u8, 58u8]
    } else {
        Seq::empty()
    };
    if !has_drive && path_len > 0 && path[0] != 92 {
        if out_len + 2 < buf.len() {
            buf.set(out_len, 67);
            out_len = out_len + 1;
            buf.set(out_len, 58);
            out_len = out_len + 1;
        }
    }
    proof {
        assert(buf@ =~= drive + b0.skip(drive.len() as int));
    }
    let ghost full = drive + backslashed(p);
    let mut i: usize = 0;
    while i < path_len
        invariant
            path_len == c_len(path@),
            path_len < path@.len(),
            p == path@.take(path_len as int),
            full == drive + backslashed(p),
            size == b0.len(),
            size >= 1,
            drive.len() <= size - 1,
            buf@.len() == size,
            i <= path_len,
            out_len == drive.len() + i,
            out_len <= size - 1,
            buf@ == full.take(out_len as int) + b0.skip(out_len as int),
        ensures
            out_len == if full.len() <= size - 1 { full.len() as int } else { size - 1 },
            buf@ == full.take(out_len as int) + b0.skip(out_len as int),
        decreases path_len - i,
    {
        if out_len >= buf.len() - 1 {
            break;
        }
        let c = if path[i] == 47 { 92u8 } else { path[i] };
        buf.set(out_len, c);
        out_len = out_len + 1;
        i = i + 1;
        proof {
            assert(full[out_len - 1] == c);
            assert(buf@ =~= full.take(out_len as int) + b0.skip(out_len as int));
        }
    }
    buf.set(out_len, 0);
    proof {
        assert(full.take(out_len as int) =~= translated(path@, size));
        assert(buf@ =~= translated(path@, size) + seq![0u8] + b0.skip(out_len + 1));
    }
    out_len
}

/// `C:\TMP\t`, the start of every temporary name.
pub open spec fn tmp_prefix() -> Seq<u8> {
    seq![67u8, 58, 92, 84, 77, 80, 92, 116]
}

/// The count of temporary names handed out so far.
pub struct TempNames {
    counter: u32,
}

impl TempNames {
    pub closed spec fn count(&self) -> u32 {
        self.counter
    }

    pub fn new() -> (r: Self)
        ensures
            r.count() == 0,
    {
        TempNames { counter: 0 }
    }

    /// The next temporary name, NUL included: the prefix and the new count in decimal.
    pub fn tmpnam(&mut self) -> (r: Vec<u8>)
        requires
            old(self).count() < u32::MAX,
        ensures
            final(self).count() == old(self).count() + 1,
            r@ == tmp_prefix() + digits_of(final(self).count() as nat, 10, false) + seq![0u8],
    {
        self.counter = self.counter + 1;
        let mut name: Vec<u8> = vec![67u8, 58, 92, 84, 77, 80, 92, 116];
        let mut digits = format_uint(self.counter as u64, 10, false);
        name.append(&mut digits);
        name.push(0);
        proof {
            assert(name@ =~= tmp_prefix() + digits_of(self.counter as nat, 10, false) + seq![0u8]);
        }
        name
    }
}

/// Nibble `i` of a word, the most significant first.
pub open spec fn nibble(val: u32, i: int) -> u32 {
    (val >> ((28 - 4 * i) as u32)) & 0xf
}

/// The text of a word written for debugging: `0x` and eight capital hex digits.
pub open spec fn hex_word_text(val: u32) -> Seq<u8> {
    seq![48u8, 120u8] + Seq::new(
        8,
        |i: int|
            if nibble(val, i) < 10 {
                (48 + nibble(val, i)) as u8
            } else {
                (55 + nibble(val, i)) as u8
            },
    )
}

/// What `debug_write_hex` writes for a word.
pub fn hex_word(val: u32) -> (r: Vec<u8>)
    ensures
        r@ == hex_word_text(val),
{
    let mut out: Vec<u8> = vec![48u8, 120u8];
    let mut i: u32 = 0;
    while i < 8
        invariant
            i <= 8,
            out@ == hex_word_text(val).take(2 + i),
        decreases 8 - i,
    {
        let shift: u32 = 28 - i * 4;
        let n = (val >> shift) & 0xf;
        assert(((val >> shift) & 0xf) <= 0xf) by (bit_vector);
        let c: u8 = if n < 10 { 48 + n as u8 } else { 55 + n as u8 };
        proof {
            assert(nibble(val, i as int) == n);
        }
        out.push(c);
        i = i + 1;
        proof {
            assert(out@ =~= hex_word_text(val).take(2 + i));
        }
    }
    proof {
        assert(out@ =~= hex_word_text(val));
    }
    out
}

/// A word is its eight nibbles, the most significant first, each below 16.
proof fn lemma_word_nibbles(val: u32)
    by (bit_vector)
    ensures
        (val >> 28u32) & 0xf <= 15,
        (val >> 24u32) & 0xf <= 15,
        (val >> 20u32) & 0xf <= 15,
        (val >> 16u32) & 0xf <= 15,
        (val >> 12u32) & 0xf <= 15,
        (val >> 8u32) & 0xf <= 15,
        (val >> 4u32) & 0xf <= 15,
        (val >> 0u32) & 0xf <= 15,
        val == ((((((((val >> 28u32) & 0xf) * 16 + ((val >> 24u32) & 0xf)) * 16 + ((val >> 20u32)
            & 0xf)) * 16 + ((val >> 16u32) & 0xf)) * 16 + ((val >> 12u32) & 0xf)) * 16 + ((val
            >> 8u32) & 0xf)) * 16 + ((val >> 4u32) & 0xf)) * 16 + ((val >> 0u32) & 0xf),
{
}

/// The debug text of a word is `0x` and exactly eight digits, `0`-`9` or capital `A`-`F`, that
/// read back in base 16 as the word: leading zeros are kept, so every word takes ten bytes.
pub proof fn law_hex_word_reads_back(val: u32)
    ensures
        hex_word_text(val).len() == 10,
        hex_word_text(val)[0] == 48 && hex_word_text(val)[1] == 120,
        forall|i: int| 2 <= i < 10 ==> {
            let c = #[trigger] hex_word_text(val)[i];
            (48 <= c <= 57) || (65 <= c <= 70)
        },
        digits_value(hex_word_text(val).skip(2), 16) == val,
{
    let t = hex_word_text(val);
    let d = t.skip(2);
    lemma_word_nibbles(val);
    assert forall|i: int| 0 <= i < 8 implies nibble(val, i) <= 15 && digit_value_of(#[trigger] d[i]) == nibble(val, i) && {
        let c = d[i];
        (48 <= c <= 57) || (65 <= c <= 70)
    } by {
        assert(d[i] == t[i + 2]);
        if i == 0 { assert(((28 - 4 * i) as u32) == 28u32); }
        if i == 1 { assert(((28 - 4 * i) as u32) == 24u32); }
        if i == 2 { assert(((28 - 4 * i) as u32) == 20u32); }
        if i == 3 { assert(((28 - 4 * i) as u32) == 16u32); }
        if i == 4 { assert(((28 - 4 * i) as u32) == 12u32); }
        if i == 5 { assert(((28 - 4 * i) as u32) == 8u32); }
        if i == 6 { assert(((28 - 4 * i) as u32) == 4u32); }
        if i == 7 { assert(((28 - 4 * i) as u32) == 0u32); }
    }
    assert forall|i: int| 2 <= i < 10 implies {
        let c = #[trigger] t[i];
        (48 <= c <= 57) || (65 <= c <= 70)
    } by {
        assert(t[i] == d[i - 2]);
    }
    assert(d.len() == 8);
    assert(digits_value(d.take(0), 16) == 0);
    assert forall|k: int| 1 <= k <= 8 implies digits_value(#[trigger] d.take(k), 16) == digits_value(d.take(k - 1), 16) * 16 + nibble(val, k - 1) by {
        assert(d.take(k).drop_last() =~= d.take(k - 1));
        assert(d.take(k).last() == d[k - 1]);
        assert(digit_value_of(d[k - 1]) == nibble(val, k - 1));
    }
    assert(digits_value(d.take(1), 16) == digits_value(d.take(0), 16) * 16 + nibble(val, 0));
    assert(digits_value(d.take(2), 16) == digits_value(d.take(1), 16) * 16 + nibble(val, 1));
    assert(digits_value(d.take(3), 16) == digits_value(d.take(2), 16) * 16 + nibble(val, 2));
    assert(digits_value(d.take(4), 16) == digits_value(d.take(3), 16) * 16 + nibble(val, 3));
    assert(digits_value(d.take(5), 16) == digits_value(d.take(4), 16) * 16 + nibble(val, 4));
    assert(digits_value(d.take(6), 16) == digits_value(d.take(5), 16) * 16 + nibble(val, 5));
    assert(digits_value(d.take(7), 16) == digits_value(d.take(6), 16) * 16 + nibble(val, 6));
    assert(digits_value(d.take(8), 16) == digits_value(d.take(7), 16) * 16 + nibble(val, 7));
    assert(d.take(8) =~= d);
    assert(nibble(val, 0) == (val >> 28u32) & 0xf);
    assert(nibble(val, 1) == (val >> 24u32) & 0xf);
    assert(nibble(val, 2) == (val >> 20u32) & 0xf);
    assert(nibble(val, 3) == (val >> 16u32) & 0xf);
    assert(nibble(val, 4) == (val >> 12u32) & 0xf);
    assert(nibble(val, 5) == (val >> 8u32) & 0xf);
    assert(nibble(val, 6) == (val >> 4u32) & 0xf);
    assert(nibble(val, 7) == (val >> 0u32) & 0xf);
}

/// The value `fgetc` and friends return at the end of a file or on an error.
pub const EOF: i32 = -1;

pub const SEEK_SET: i32 = 0;

pub const SEEK_CUR: i32 = 1;

pub const SEEK_END: i32 = 2;

/// The state of an open C stream between its reads and writes.
pub struct FILE {
    /// The kernel handle the stream reads and writes through.
    pub handle: u32,
    /// The position in the file.
    pub pos: u32,
    pub error: i32,
    pub eof: i32,
    pub is_open: bool,
    /// stdin, stdout and stderr: closing them leaves the kernel handle open.
    pub is_console: bool,
    /// A byte pushed back with `ungetc`, or -1.
    pub unget: i32,
}

/// The mode string asks to append: it holds `a` before its NUL.
pub open spec fn appends(mode: Seq<u8>) -> bool {
    exists|k: int| 0 <= k < c_len(mode) && mode[k] == 97
}

/// Whether `fopen` with this mode starts at the end of the file.
pub fn opens_for_append(mode: &[u8]) -> (r: bool)
    requires
        terminated(mode@),
    ensures
        r == appends(mode@),
{
    proof {
        lemma_nul_from(mode@, 0);
    }
    let mut i: usize = 0;
    while mode[i] != 0
        invariant
            i <= nul_from(mode@, 0) < mode@.len(),
            nul_from(mode@, i as int) == nul_from(mode@, 0),
            mode@[nul_from(mode@, 0)] == 0,
            forall|k: int| 0 <= k < i ==> mode@[k] != 97,
        decreases nul_from(mode@, 0) - i,
    {
        if mode[i] == 97 {
            proof {
                assert(mode@[i as int] == 97);
            }
            return true;
        }
        proof {
            lemma_nul_from(mode@, i + 1);
        }
        i = i + 1;
    }
    false
}

impl FILE {
    /// A console stream, as `init` sets up stdin, stdout and stderr.
    pub fn console(handle: u32) -> (r: Self)
        ensures
            r == (FILE {
                handle,
                pos: 0,
                error: 0,
                eof: 0,
                is_open: true,
                is_console: true,
                unget: -1i32,
            }),
    {
        FILE { handle, pos: 0, error: 0, eof: 0, is_open: true, is_console: true, unget: -1 }
    }

    /// A file stream just opened: at 0, or at the file's size when appending.
    pub fn opened(handle: u32, append_at: Option<u32>) -> (r: Self)
        ensures
            r == (FILE {
                handle,
                pos: match append_at {
                    Some(size) => size,
                    None => 0,
                },
                error: 0,
                eof: 0,
                is_open: true,
                is_console: false,
                unget: -1i32,
            }),
    {
        let pos = match append_at {
            Some(size) => size,
            None => 0,
        };
        FILE { handle, pos, error: 0, eof: 0, is_open: true, is_console: false, unget: -1 }
    }
}

/// Closes a stream: `EOF` if it is not open; otherwise 0, and whether its kernel handle is to
/// be closed too (it is not for a console).
pub fn fclose(f: &mut FILE) -> (r: (i32, bool))
    ensures
        !old(f).is_open ==> r == (EOF, false) && *final(f) == *old(f),
        old(f).is_open ==> r == (0i32, !old(f).is_console) && *final(f) == (FILE {
            is_open: false,
            ..*old(f)
        }),
{
    if !f.is_open {
        return (EOF, false);
    }
    let close = !f.is_console;
    f.is_open = false;
    (0, close)
}

/// The position `fseek` moves to, where `end` is the file's size.
pub open spec fn seek_target(pos: u32, offset: i32, whence: i32, end: u32) -> u32 {
    if whence == 0 {
        offset as u32
    } else if whence == 1 {
        (pos as i32 + offset) as u32
    } else {
        (end as i32 + offset) as u32
    }
}

/// Where `fseek` lands: a non-negative offset from the start is the new position itself; an
/// offset from the position or from the end is added to it, so that offset 0 stays at the
/// position, or goes to the end.
pub proof fn law_seek_positions(pos: u32, offset: i32, end: u32)
    requires
        pos <= i32::MAX,
        end <= i32::MAX,
    ensures
        offset >= 0 ==> seek_target(pos, offset, SEEK_SET, end) == offset,
        0 <= pos + offset <= i32::MAX ==> seek_target(pos, offset, SEEK_CUR, end) == pos + offset,
        0 <= end + offset <= i32::MAX ==> seek_target(pos, offset, SEEK_END, end) == end + offset,
        seek_target(pos, 0, SEEK_CUR, end) == pos,
        seek_target(pos, 0, SEEK_END, end) == end,
{
}

/// Moves the position of an open stream: from the start, from the position, or from the end
/// (`end`, the file's size). Clears the end-of-file flag and a pushed-back byte even for an
/// unknown `whence`, which gives -1.
pub fn fseek(f: &mut FILE, offset: i32, whence: i32, end: u32) -> (r: i32)
    requires
        whence == 1 ==> i32::MIN <= old(f).pos as i32 + offset <= i32::MAX,
        whence == 2 ==> i32::MIN <= end as i32 + offset <= i32::MAX,
    ensures
        !old(f).is_open ==> r == -1 && *final(f) == *old(f),
        old(f).is_open && (whence < 0 || whence > 2) ==> r == -1 && *final(f) == (FILE {
            eof: 0,
            unget: -1i32,
            ..*old(f)
        }),
        old(f).is_open && 0 <= whence <= 2 ==> r == 0 && *final(f) == (FILE {
            eof: 0,
            unget: -1i32,
            pos: seek_target(old(f).pos, offset, whence, end),
            ..*old(f)
        }),
{
    if !f.is_open {
        return -1;
    }
    f.eof = 0;
    f.unget = -1;
    if whence == 0 {
        f.pos = offset as u32;
    } else if whence == 1 {
        f.pos = (f.pos as i32 + offset) as u32;
    } else if whence == 2 {
        f.pos = (end as i32 + offset) as u32;
    } else {
        return -1;
    }
    0
}

/// The position, or -1 for a closed stream.
pub fn ftell(f: &FILE) -> (r: i32)
    ensures
        r == if f.is_open { f.pos as i32 } else { -1i32 },
{
    if !f.is_open {
        return -1;
    }
    f.pos as i32
}

pub fn feof(f: &FILE) -> (r: i32)
    ensures
        r == f.eof,
{
    f.eof
}

pub fn ferror(f: &FILE) -> (r: i32)
    ensures
        r == f.error,
{
    f.error
}

pub fn clearerr(f: &mut FILE)
    ensures
        *final(f) == (FILE { error: 0, eof: 0, ..*old(f) }),
{
    f.error = 0;
    f.eof = 0;
}

/// Back to the start, with the error flag cleared.
pub fn rewind(f: &mut FILE)
    ensures
        !old(f).is_open ==> *final(f) == (FILE { error: 0, ..*old(f) }),
        old(f).is_open ==> *final(f) == (FILE { error: 0, eof: 0, unget: -1i32, pos: 0, ..*old(f) }),
{
    fseek(f, 0, SEEK_SET, 0);
    f.error = 0;
}

/// Pushes a byte back for the next `fgetc`; `EOF` pushes nothing.
pub fn ungetc(c: i32, f: &mut FILE) -> (r: i32)
    ensures
        r == c,
        c == EOF ==> *final(f) == *old(f),
        c != EOF ==> *final(f) == (FILE { unget: c, eof: 0, ..*old(f) }),
{
    if c == EOF {
        return EOF;
    }
    f.unget = c;
    f.eof = 0;
    c
}

/// The first step of `fgetc`: a result at once, or a read of one byte at the position.
pub enum GetStep {
    Done(i32),
    ReadAt(u32),
}

/// Starts `fgetc`: `EOF` for a closed stream, the pushed-back byte where there is one
/// (taking it), else a read of one byte at the position.
pub fn fgetc_start(f: &mut FILE) -> (r: GetStep)
    ensures
        !old(f).is_open ==> r == GetStep::Done(EOF) && *final(f) == *old(f),
        old(f).is_open && old(f).unget >= 0 ==> r == GetStep::Done(old(f).unget) && *final(f)
            == (FILE { unget: -1i32, ..*old(f) }),
        old(f).is_open && old(f).unget < 0 ==> r == GetStep::ReadAt(old(f).pos) && *final(f)
            == *old(f),
{
    if !f.is_open {
        return GetStep::Done(EOF);
    }
    if f.unget >= 0 {
        let c = f.unget;
        f.unget = -1;
        return GetStep::Done(c);
    }
    GetStep::ReadAt(f.pos)
}

/// Finishes `fgetc` with the byte read, if one was: the byte, one further on, or `EOF` with
/// the end-of-file flag set.
pub fn fgetc_finish(f: &mut FILE, byte: Option<u8>) -> (r: i32)
    requires
        byte is Some ==> old(f).pos < u32::MAX,
    ensures
        match byte {
            Some(b) => r == b && *final(f) == (FILE { pos: (old(f).pos + 1) as u32, ..*old(f) }),
            None => r == EOF && *final(f) == (FILE { eof: 1, ..*old(f) }),
        },
{
    match byte {
        Some(b) => {
            f.pos = f.pos + 1;
            b as i32
        },
        None => {
            f.eof = 1;
            EOF
        },
    }
}

/// Finishes `fputc` with the outcome of the write: the byte's value and one further on, or
/// `EOF` with the error flag set.
pub fn fputc_finish(f: &mut FILE, c: i32, written: bool) -> (r: i32)
    requires
        written ==> old(f).pos < u32::MAX,
    ensures
        written ==> r == c && *final(f) == (FILE { pos: (old(f).pos + 1) as u32, ..*old(f) }),
        !written ==> r == EOF && *final(f) == (FILE { error: 1, ..*old(f) }),
{
    if written {
        f.pos = f.pos + 1;
        c
    } else {
        f.error = 1;
        EOF
    }
}

/// Finishes `fread` of items of `size` bytes with the outcome of the read: the count of whole
/// items read, the end-of-file flag set after reading nothing, the error flag after a failure.
pub fn fread_finish(f: &mut FILE, size: usize, result: Result<u32, u32>) -> (r: usize)
    requires
        size > 0,
        result matches Ok(n) ==> old(f).pos + n <= u32::MAX,
    ensures
        match result {
            Ok(n) => if n == 0 {
                r == 0 && *final(f) == (FILE { eof: 1, ..*old(f) })
            } else {
                r == (n as int) / (size as int) && *final(f) == (FILE { pos: (old(f).pos + n) as u32, ..*old(f) })
            },
            Err(_) => r == 0 && *final(f) == (FILE { error: 1, ..*old(f) }),
        },
{
    match result {
        Ok(n) => {
            if n == 0 {
                f.eof = 1;
                0
            } else {
                f.pos = f.pos + n;
                (n as usize) / size
            }
        },
        Err(_) => {
            f.error = 1;
            0
        },
    }
}

/// Finishes `fwrite` of items of `size` bytes with the outcome of the write.
pub fn fwrite_finish(f: &mut FILE, size: usize, result: Result<u32, u32>) -> (r: usize)
    requires
        size > 0,
        result matches Ok(n) ==> old(f).pos + n <= u32::MAX,
    ensures
        match result {
            Ok(n) => r == (n as int) / (size as int) && *final(f) == (FILE {
                pos: (old(f).pos + n) as u32,
                ..*old(f)
            }),
            Err(_) => r == 0 && *final(f) == (FILE { error: 1, ..*old(f) }),
        },
{
    match result {
        Ok(n) => {
            f.pos = f.pos + n;
            (n as usize) / size
        },
        Err(_) => {
            f.error = 1;
            0
        },
    }
}

/// What `fputs` returns after writing `len` bytes of which `written` items went out.
pub fn fputs_result(len: usize, written: usize) -> (r: i32)
    ensures
        r == if written == 0 && len > 0 { EOF } else { 0 },
{
    if written == 0 && len > 0 {
        EOF
    } else {
        0
    }
}

/// A line being read by `fgets` into a buffer of `n` bytes.
pub struct LineReader {
    line: Vec<u8>,
    max: usize,
}

/// What `fgets` does next: read another byte, or finish with the line (NUL included) or
/// nothing.
pub enum LineStep {
    Read,
    Finished(Option<Vec<u8>>),
}

impl LineReader {
    pub closed spec fn line(&self) -> Seq<u8> {
        self.line@
    }

    pub closed spec fn max(&self) -> int {
        self.max as int
    }

    /// Starts `fgets` with a buffer of `n` bytes: none for `n` of 0 or less.
    pub fn fgets_start(n: i32) -> (r: Option<Self>)
        ensures
            n <= 0 ==> r is None,
            n > 0 ==> (r matches Some(reader) && reader.line() == Seq::<u8>::empty()
                && reader.max() == n - 1),
    {
        if n <= 0 {
            return None;
        }
        Some(LineReader { line: Vec::new(), max: (n - 1) as usize })
    }

    /// Whether another byte is to be read: the buffer has room for it before the NUL.
    pub fn wants_more(&self) -> (r: bool)
        ensures
            r == (self.line().len() < self.max()),
    {
        self.line.len() < self.max
    }

    /// Takes the byte `fgetc` gave: `EOF` ends the line (with nothing when the line is
    /// empty), a newline is kept and ends it, another byte is kept.
    pub fn accept(&mut self, c: i32) -> (r: LineStep)
        requires
            old(self).line().len() < old(self).max(),
        ensures
            final(self).max() == old(self).max(),
            c == EOF && old(self).line().len() == 0 ==> r matches LineStep::Finished(None),
            c == EOF && old(self).line().len() > 0 ==> (r matches LineStep::Finished(Some(v))
                && v@ == old(self).line().push(0)),
            c != EOF ==> final(self).line() == old(self).line().push(c as u8),
            c != EOF && c == 10 ==> (r matches LineStep::Finished(Some(v)) && v@ == old(
                self,
            ).line().push(10).push(0)),
            c != EOF && c != 10 ==> r is Read,
    {
        if c == EOF {
            if self.line.len() == 0 {
                return LineStep::Finished(None);
            }
            let mut v = self.line.clone();
            proof {
                assert(v@ =~= self.line@);
            }
            v.push(0);
            return LineStep::Finished(Some(v));
        }
        self.line.push(c as u8);
        if c == 10 {
            let mut v = self.line.clone();
            proof {
                assert(v@ =~= self.line@);
            }
            v.push(0);
            return LineStep::Finished(Some(v));
        }
        LineStep::Read
    }

    /// The line when the buffer is full: what was read and a NUL.
    pub fn finish(&self) -> (r: Vec<u8>)
        ensures
            r@ == self.line().push(0),
    {
        let mut v = self.line.clone();
        proof {
            assert(v@ =~= self.line@);
        }
        v.push(0);
        v
    }
}

} // verus!
