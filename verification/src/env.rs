//! The arguments a program was started with, read one at a time.
use vstd::prelude::*;

verus! {

/// The bytes of a NUL-terminated string: those before the first NUL, or all
/// of them when there is none
pub open spec fn c_string(bytes: Seq<u8>) -> Seq<u8>
    decreases bytes.len(),
{
    if bytes.len() == 0 {
        bytes
    } else if bytes[0] == 0 {
        Seq::empty()
    } else {
        seq![bytes[0]] + c_string(bytes.drop_first())
    }
}

/// The string of a buffer is its longest start without a NUL: a prefix of the buffer holding
/// no NUL, which ends at the buffer's end or just before a NUL.
pub proof fn law_c_string(bytes: Seq<u8>)
    ensures
        c_string(bytes).len() <= bytes.len(),
        c_string(bytes) == bytes.take(c_string(bytes).len() as int),
        forall|k: int| 0 <= k < c_string(bytes).len() ==> #[trigger] c_string(bytes)[k] != 0,
        c_string(bytes).len() < bytes.len() ==> bytes[c_string(bytes).len() as int] == 0,
    decreases bytes.len(),
{
    if bytes.len() > 0 && bytes[0] != 0 {
        let t = bytes.drop_first();
        law_c_string(t);
        let c = c_string(bytes);
        assert(c == seq![bytes[0]] + c_string(t));
        assert(c =~= bytes.take(c.len() as int));
        assert forall|k: int| 0 <= k < c.len() implies #[trigger] c[k] != 0 by {
            if k > 0 {
                assert(c[k] == c_string(t)[k - 1]);
            }
        }
        if c.len() < bytes.len() {
            assert(bytes[c.len() as int] == t[c_string(t).len() as int]);
        }
    } else if bytes.len() > 0 {
        assert(c_string(bytes) =~= bytes.take(0));
    }
}

/// The arguments of a program: `count` NUL-terminated strings
pub struct Args {
    count: u32,
    current_index: u32,
    argv: Vec<Vec<u8>>,
}

impl Args {
    /// The strings the arguments are read from
    pub closed spec fn strings(&self) -> Seq<Seq<u8>> {
        self.argv@.map_values(|v: Vec<u8>| v@)
    }

    /// The number of arguments
    pub closed spec fn count(&self) -> int {
        self.count as int
    }

    /// The index of the next argument
    pub closed spec fn index(&self) -> int {
        self.current_index as int
    }

    pub closed spec fn wf(&self) -> bool {
        self.count <= self.argv@.len()
    }

    pub fn new(argc: u32, argv: Vec<Vec<u8>>) -> (r: Self)
        requires
            argc <= argv@.len(),
        ensures
            r.wf(),
            r.count() == argc,
            r.index() == 0,
            r.strings() == argv@.map_values(|v: Vec<u8>| v@),
    {
        Args { count: argc, current_index: 0, argv }
    }

    /// The current argument, up to its terminating NUL
    pub fn get_current(&self) -> (r: Vec<u8>)
        requires
            self.wf(),
            self.index() < self.count(),
        ensures
            r@ == c_string(self.strings()[self.index()]),
    {
        let bytes = &self.argv[self.current_index as usize];
        let mut out: Vec<u8> = Vec::new();
        let mut i: usize = 0;
        proof {
            assert(bytes@.skip(0) =~= bytes@);
            assert(out@ + c_string(bytes@) =~= c_string(bytes@));
        }
        while i < bytes.len() && bytes[i] != 0
            invariant
                i <= bytes@.len(),
                forall|k: int| 0 <= k < i ==> bytes@[k] != 0,
                out@ == bytes@.take(i as int),
                c_string(bytes@) == out@ + c_string(bytes@.skip(i as int)),
            decreases bytes@.len() - i,
        {
            out.push(bytes[i]);
            proof {
                assert(bytes@.take(i + 1) =~= bytes@.take(i as int).push(bytes@[i as int]));
                assert(bytes@.skip(i as int).drop_first() =~= bytes@.skip(i + 1));
                assert(c_string(bytes@.skip(i as int)) == seq![bytes@[i as int]] + c_string(bytes@.skip(i + 1)));
                assert(out@ + c_string(bytes@.skip(i + 1)) =~= bytes@.take(i as int) + (seq![bytes@[i as int]] + c_string(bytes@.skip(i + 1))));
            }
            i = i + 1;
        }
        proof {
            assert(bytes@.skip(0) =~= bytes@) ;
            if i < bytes@.len() {
                assert(bytes@.skip(i as int)[0] == 0);
            } else {
                assert(bytes@.skip(i as int).len() == 0);
            }
            assert(out@ =~= out@ + Seq::<u8>::empty());
        }
        out
    }

    /// The next argument, or `None` once all have been read
    pub fn next(&mut self) -> (r: Option<Vec<u8>>)
        requires
            old(self).wf(),
        ensures
            final(self).wf(),
            final(self).strings() == old(self).strings(),
            final(self).count() == old(self).count(),
            old(self).index() >= old(self).count() ==> r is None && final(self).index() == old(self).index(),
            old(self).index() < old(self).count() ==> (r matches Some(a) && a@ == c_string(old(self).strings()[old(self).index()])
                && final(self).index() == old(self).index() + 1),
    {
        if self.current_index >= self.count {
            return None;
        }
        let item = self.get_current();
        self.current_index = self.current_index + 1;
        Some(item)
    }
}

/// The arguments of the program, from the strings it was started with
pub fn args(argc: u32, argv: Vec<Vec<u8>>) -> (r: Args)
    requires
        argc <= argv@.len(),
    ensures
        r.wf(),
        r.count() == argc,
        r.index() == 0,
        r.strings() == argv@.map_values(|v: Vec<u8>| v@),
{
    Args::new(argc, argv)
}

} // verus!
