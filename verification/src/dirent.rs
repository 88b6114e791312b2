//! Reading a directory, which the kernel hands out as a file of NUL-separated names, through a
//! buffer that is refilled by reads.

use vstd::prelude::*;

verus! {

/// The size of a directory's read buffer.
pub const DIR_BUF_SIZE: usize = 512;

/// The number of directories open at once.
pub const MAX_OPEN_DIRS: usize = 8;

/// The longest name an entry can hold (its NUL comes after).
pub const MAX_NAME: usize = 255;

/// An open directory: the buffer of read bytes, how many are valid, where the next entry
/// starts, and where the next read starts in the directory file.
pub struct DIR {
    handle: u32,
    buf: Vec<u8>,
    buf_len: usize,
    buf_pos: usize,
    read_offset: u32,
    eof: bool,
    in_use: bool,
}

/// The first index from `i` below `len` that holds NUL, or `len`.
pub open spec fn nul_between(buf: Seq<u8>, i: int, len: int) -> int
    decreases len - i,
{
    if i >= len {
        len
    } else if buf[i] == 0 {
        i
    } else {
        nul_between(buf, i + 1, len)
    }
}

proof fn lemma_nul_between(buf: Seq<u8>, i: int, len: int)
    requires
        0 <= i,
        len <= buf.len(),
    ensures
        i <= len ==> i <= nul_between(buf, i, len) <= len,
        i > len ==> nul_between(buf, i, len) == len,
        nul_between(buf, i, len) < len ==> buf[nul_between(buf, i, len)] == 0,
        forall|k: int| i <= k < nul_between(buf, i, len) ==> buf[k] != 0,
    decreases len - i,
{
    if i < len && buf[i] != 0 {
        lemma_nul_between(buf, i + 1, len);
    }
}

/// The next entry of a directory, where one is whole in the buffer, runs from the position to
/// the first NUL after the entry's first byte: the name handed out holds no NUL past its first
/// byte, and the byte after it is the NUL that ends it.
pub proof fn law_entry_bounds(d: DIR)
    requires
        d.wf(),
        d.entry_end() < d.valid(),
    ensures
        d.position() < d.entry_end(),
        d.buffer()[d.entry_end()] == 0,
        forall|k: int| d.position() < k < d.entry_end() ==> #[trigger] d.buffer()[k] != 0,
{
    lemma_nul_between(d.buffer(), d.position() + 1, d.valid());
}

/// What `readdir` does next.
pub enum DirStep {
    /// A name: the bytes from where the entry starts to the NUL that ends it.
    Entry(Vec<u8>),
    /// No more entries.
    End,
    /// Read more of the directory file, from `offset`, into the buffer from `at` to its end.
    ReadInto { offset: u32, at: usize },
}

impl DIR {
    pub closed spec fn kernel_handle(&self) -> u32 {
        self.handle
    }

    /// The kernel handle the directory is read through.
    pub fn handle(&self) -> (r: u32)
        ensures
            r == self.kernel_handle(),
    {
        self.handle
    }

    pub closed spec fn buffer(&self) -> Seq<u8> {
        self.buf@
    }

    pub closed spec fn valid(&self) -> int {
        self.buf_len as int
    }

    pub closed spec fn position(&self) -> int {
        self.buf_pos as int
    }

    pub closed spec fn offset(&self) -> u32 {
        self.read_offset
    }

    pub closed spec fn at_end(&self) -> bool {
        self.eof
    }

    pub closed spec fn open(&self) -> bool {
        self.in_use
    }

    /// The buffer holds `DIR_BUF_SIZE` bytes, and the next entry starts within the valid ones.
    pub open spec fn wf(&self) -> bool {
        &&& self.buffer().len() == DIR_BUF_SIZE
        &&& 0 <= self.position() <= self.valid() <= DIR_BUF_SIZE
    }

    /// The index of the NUL that ends the next entry: the first after the entry's first byte.
    pub open spec fn entry_end(&self) -> int {
        nul_between(self.buffer(), self.position() + 1, self.valid())
    }

    /// The next entry's name fits a `dirent`, where one is in the buffer.
    pub open spec fn name_fits(&self) -> bool {
        self.entry_end() < self.valid() ==> self.entry_end() - self.position() <= MAX_NAME
    }

    /// A directory just opened: nothing read yet.
    pub fn opened(handle: u32) -> (r: Self)
        ensures
            r.wf(),
            r.valid() == 0,
            r.position() == 0,
            r.offset() == 0,
            !r.at_end(),
            r.open(),
            r.kernel_handle() == handle,
    {
        let buf: Vec<u8> = vec![0u8; DIR_BUF_SIZE];
        DIR { handle, buf, buf_len: 0, buf_pos: 0, read_offset: 0, eof: false, in_use: true }
    }

    /// The next step of `readdir`. An entry found in the buffer is handed out and skipped. Else
    /// an empty entry at the start is passed over, and then either the directory has ended or
    /// the rest of the buffer moves to its start and more is to be read after it.
    pub fn readdir(&mut self) -> (r: DirStep)
        requires
            old(self).wf(),
            old(self).name_fits(),
        ensures
            final(self).wf(),
            final(self).kernel_handle() == old(self).kernel_handle(),
            final(self).open() == old(self).open(),
            !old(self).open() ==> r is End && final(self).buffer() == old(self).buffer(),
            old(self).open() && old(self).entry_end() < old(self).valid() ==> {
                &&& r matches DirStep::Entry(name)
                &&& name@ == old(self).buffer().subrange(
                    old(self).position(),
                    old(self).entry_end(),
                )
                &&& final(self).position() == old(self).entry_end() + 1
                &&& final(self).buffer() == old(self).buffer()
                &&& final(self).valid() == old(self).valid()
                &&& final(self).offset() == old(self).offset()
                &&& final(self).at_end() == old(self).at_end()
            },
            old(self).open() && old(self).entry_end() >= old(self).valid() ==> {
                let start = if old(self).position() < old(self).valid() && old(self).buffer()[old(
                    self,
                ).position()] == 0 {
                    old(self).position() + 1
                } else {
                    old(self).position()
                };
                &&& old(self).at_end() ==> r is End && final(self).position() == start
                    && final(self).buffer() == old(self).buffer() && final(self).valid()
                    == old(self).valid()
                &&& !old(self).at_end() ==> {
                    &&& r == DirStep::ReadInto {
                        offset: old(self).offset(),
                        at: (old(self).valid() - start) as usize,
                    }
                    &&& final(self).position() == 0
                    &&& final(self).valid() == old(self).valid() - start
                    &&& final(self).buffer().take(final(self).valid()) == old(
                        self,
                    ).buffer().subrange(start, old(self).valid())
                    &&& final(self).offset() == old(self).offset()
                    &&& !final(self).at_end()
                }
            },
    {
        if !self.in_use {
            return DirStep::End;
        }
        let start = self.buf_pos;
        let len = self.buf_len;
        let mut i = start + 1;
        if start < len && self.buf[start] == 0 {
            self.buf_pos = start + 1;
        }
        while i < len && self.buf[i] != 0
            invariant
                self.buf@.len() == DIR_BUF_SIZE,
                len == self.buf_len,
                len <= DIR_BUF_SIZE,
                start + 1 <= i,
                nul_between(self.buf@, i as int, len as int) == nul_between(
                    self.buf@,
                    start + 1,
                    len as int,
                ),
            decreases len - i,
        {
            i = i + 1;
        }
        if i < len {
            let mut name: Vec<u8> = Vec::new();
            let mut j = start;
            while j < i
                invariant
                    start <= j <= i,
                    i < self.buf@.len(),
                    name@ == self.buf@.subrange(start as int, j as int),
                decreases i - j,
            {
                name.push(self.buf[j]);
                j = j + 1;
                proof {
                    assert(name@ =~= self.buf@.subrange(start as int, j as int));
                }
            }
            self.buf_pos = i + 1;
            return DirStep::Entry(name);
        }
        if self.eof {
            return DirStep::End;
        }
        let from = self.buf_pos;
        let remaining = len - from;
        let ghost before = self.buf@;
        let mut k: usize = 0;
        while k < remaining
            invariant
                self.handle == old(self).handle,
                self.in_use == old(self).in_use,
                self.eof == old(self).eof,
                self.read_offset == old(self).read_offset,
                self.buf_len == len,
                self.buf_pos == from,
                from + remaining == len,
                len <= DIR_BUF_SIZE,
                self.buf@.len() == DIR_BUF_SIZE,
                before.len() == DIR_BUF_SIZE,
                k <= remaining,
                forall|m: int| 0 <= m < k ==> self.buf@[m] == before[from + m],
                forall|m: int| k <= m < DIR_BUF_SIZE ==> self.buf@[m] == before[m],
            decreases remaining - k,
        {
            let b = self.buf[from + k];
            self.buf.set(k, b);
            k = k + 1;
        }
        proof {
            assert(self.buf@.take(remaining as int) =~= before.subrange(from as int, len as int));
        }
        self.buf_len = remaining;
        self.buf_pos = 0;
        DirStep::ReadInto { offset: self.read_offset, at: remaining }
    }

    /// Takes what a read gave: bytes placed after the valid ones, and the read offset moved on;
    /// or, for nothing or a failure, the end of the directory. True where `readdir` goes on,
    /// false where it ends with no entry.
    pub fn refill(&mut self, data: Option<Vec<u8>>) -> (r: bool)
        requires
            old(self).wf(),
            data matches Some(d) ==> old(self).valid() + d@.len() <= DIR_BUF_SIZE
                && old(self).offset() + d@.len() <= u32::MAX,
        ensures
            final(self).wf(),
            final(self).kernel_handle() == old(self).kernel_handle(),
            final(self).open() == old(self).open(),
            final(self).position() == old(self).position(),
            match data {
                Some(d) => if d@.len() > 0 {
                    &&& r
                    &&& final(self).valid() == old(self).valid() + d@.len()
                    &&& final(self).buffer().take(final(self).valid()) == old(self).buffer().take(
                        old(self).valid(),
                    ) + d@
                    &&& final(self).offset() == old(self).offset() + d@.len()
                    &&& final(self).at_end() == old(self).at_end()
                } else {
                    &&& r == (old(self).valid() > 0)
                    &&& final(self).at_end()
                    &&& final(self).buffer() == old(self).buffer()
                    &&& final(self).valid() == old(self).valid()
                    &&& final(self).offset() == old(self).offset()
                },
                None => {
                    &&& r == (old(self).valid() > 0)
                    &&& final(self).at_end()
                    &&& final(self).buffer() == old(self).buffer()
                    &&& final(self).valid() == old(self).valid()
                    &&& final(self).offset() == old(self).offset()
                },
            },
    {
        let got = match &data {
            Some(d) => d.len() > 0,
            None => false,
        };
        if !got {
            self.eof = true;
            return self.buf_len > 0;
        }
        let d = data.unwrap();
        let n = d.len();
        let at = self.buf_len;
        let ghost before = self.buf@;
        let mut k: usize = 0;
        while k < n
            invariant
                self.handle == old(self).handle,
                self.in_use == old(self).in_use,
                self.eof == old(self).eof,
                self.read_offset == old(self).read_offset,
                self.buf_len == at,
                self.buf_pos == old(self).buf_pos,
                at == old(self).buf_len,
                old(self).read_offset + n <= u32::MAX,
                at + n <= DIR_BUF_SIZE,
                self.buf@.len() == DIR_BUF_SIZE,
                before.len() == DIR_BUF_SIZE,
                n == d@.len(),
                k <= n,
                forall|m: int| 0 <= m < at ==> self.buf@[m] == before[m],
                forall|m: int| 0 <= m < k ==> self.buf@[at + m] == d@[m],
                forall|m: int| at + k <= m < DIR_BUF_SIZE ==> self.buf@[m] == before[m],
            decreases n - k,
        {
            self.buf.set(at + k, d[k]);
            k = k + 1;
        }
        self.buf_len = at + n;
        self.read_offset = self.read_offset + n as u32;
        proof {
            assert(self.buf@.take(self.buf_len as int) =~= before.take(at as int) + d@);
        }
        true
    }

    /// Closes the directory: -1 if it is not open; otherwise 0, and its kernel handle is to be
    /// closed.
    pub fn closedir(&mut self) -> (r: i32)
        ensures
            r == if old(self).open() { 0i32 } else { -1i32 },
            !final(self).open(),
            final(self).kernel_handle() == old(self).kernel_handle(),
    {
        if !self.in_use {
            return -1;
        }
        self.in_use = false;
        0
    }
}

/// The first slot of a table that is not in use.
pub fn free_slot(in_use: &[bool]) -> (r: Option<usize>)
    ensures
        match r {
            Some(i) => i < in_use@.len() && !in_use@[i as int] && forall|j: int|
                0 <= j < i ==> in_use@[j],
            None => forall|j: int| 0 <= j < in_use@.len() ==> in_use@[j],
        },
{
    let mut i: usize = 0;
    while i < in_use.len()
        invariant
            i <= in_use@.len(),
            forall|j: int| 0 <= j < i ==> in_use@[j],
        decreases in_use@.len() - i,
    {
        if !in_use[i] {
            return Some(i);
        }
        i = i + 1;
    }
    None
}

} // verus!
