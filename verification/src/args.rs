//! Arguments passed to new executable tasks.
//!
//! Args are treated externally as a set of distinct strings. Internally they
//! are stored as one continuous array of NUL-terminated bytes, with the length
//! of each argument (terminator included) recorded beside it. This is the
//! format that is copied to the task stack when it first executes.
use vstd::prelude::*;
use vstd::string::StringSliceAdditionalSpecFns;

verus! {

/// The stored form of a list of arguments: each argument's bytes followed by
/// a NUL byte
pub open spec fn encode_args(args: Seq<Seq<u8>>) -> Seq<u8>
    decreases args.len(),
{
    if args.len() == 0 {
        Seq::empty()
    } else {
        encode_args(args.drop_last()) + args.last() + seq![0u8]
    }
}

/// The recorded length of each argument: its byte count plus the terminator
pub open spec fn encode_lengths(args: Seq<Seq<u8>>) -> Seq<u32> {
    args.map_values(|a: Seq<u8>| (a.len() + 1) as u32)
}

/// Bytes needed on the stack: the argument bytes zero-padded to a 4-byte
/// boundary, one 32-bit length per argument, and a 32-bit count.
pub open spec fn args_stack_size(raw_len: int, count: int) -> int {
    let padded = if raw_len % 4 != 0 {
        raw_len + 4 - raw_len % 4
    } else {
        raw_len
    };
    padded + count * 4 + 4
}

/// The sum of recorded lengths.
pub open spec fn lengths_total(ls: Seq<u32>) -> int
    decreases ls.len(),
{
    if ls.len() == 0 {
        0
    } else {
        lengths_total(ls.drop_last()) + ls.last()
    }
}

/// The stored form can be read back: the recorded lengths add up to the stored bytes, and
/// argument `i` starts where the lengths of those before it add up to, followed by its NUL.
pub proof fn law_args_read_back(args: Seq<Seq<u8>>)
    requires
        forall|i: int| 0 <= i < args.len() ==> #[trigger] args[i].len() < u32::MAX,
    ensures
        encode_args(args).len() == lengths_total(encode_lengths(args)),
        forall|i: int| 0 <= i < args.len() ==> {
            let off = lengths_total(#[trigger] encode_lengths(args).take(i));
            &&& 0 <= off
            &&& off + args[i].len() < encode_args(args).len()
            &&& encode_args(args).subrange(off, off + args[i].len()) == args[i]
            &&& encode_args(args)[off + args[i].len()] == 0
        },
    decreases args.len(),
{
    if args.len() > 0 {
        let init = args.drop_last();
        assert forall|i: int| 0 <= i < init.len() implies #[trigger] init[i].len() < u32::MAX by {
            assert(init[i] == args[i]);
        }
        law_args_read_back(init);
        let e = encode_args(args);
        let ei = encode_args(init);
        let last = args.last();
        assert(encode_lengths(args).drop_last() =~= encode_lengths(init));
        assert(encode_lengths(args).last() == last.len() + 1) by {
            assert(args[args.len() - 1].len() < u32::MAX);
        }
        assert forall|i: int| 0 <= i < args.len() implies {
            let off = lengths_total(#[trigger] encode_lengths(args).take(i));
            &&& 0 <= off
            &&& off + args[i].len() < e.len()
            &&& e.subrange(off, off + args[i].len()) == args[i]
            &&& e[off + args[i].len()] == 0
        } by {
            if i < init.len() {
                assert(encode_lengths(args).take(i) =~= encode_lengths(init).take(i));
                let off = lengths_total(encode_lengths(init).take(i));
                assert(args[i] == init[i]);
                assert(0 <= off && off + init[i].len() < ei.len());
                assert(ei.subrange(off, off + init[i].len()) == init[i]);
                assert(e.subrange(off, off + args[i].len()) =~= ei.subrange(off, off + init[i].len()));
                assert(e[off + args[i].len()] == ei[off + init[i].len()]);
            } else {
                assert(encode_lengths(args).take(i) =~= encode_lengths(init));
                assert(e.subrange(ei.len() as int, ei.len() + last.len() as int) =~= last);
            }
        }
    }
}

/// The stack space for the arguments is a whole number of 32-bit words: the bytes padded to
/// the next multiple of four (by less than four), a word per length and a word for the count.
pub proof fn law_args_stack_size(raw_len: int, count: int)
    requires
        0 <= raw_len,
    ensures
        args_stack_size(raw_len, count) % 4 == 0,
        raw_len + count * 4 + 4 <= args_stack_size(raw_len, count) < raw_len + count * 4 + 8,
{
    let p = if raw_len % 4 != 0 { raw_len + 4 - raw_len % 4 } else { raw_len };
    assert(p % 4 == 0) by {
        vstd::arithmetic::div_mod::lemma_fundamental_div_mod(raw_len, 4);
        vstd::arithmetic::div_mod::lemma_mod_multiples_basic(raw_len / 4 + 1, 4);
        vstd::arithmetic::div_mod::lemma_mod_multiples_basic(raw_len / 4, 4);
    }
    assert((p + count * 4 + 4) % 4 == 0) by {
        vstd::arithmetic::div_mod::lemma_fundamental_div_mod(p, 4);
        vstd::arithmetic::div_mod::lemma_mod_multiples_basic(p / 4 + count + 1, 4);
    }
}

pub struct ExecArgs {
    raw: Vec<u8>,
    lengths: Vec<u32>,
    added: Ghost<Seq<Seq<u8>>>,
}

impl ExecArgs {
    /// The arguments added so far, in order, as bytes
    pub closed spec fn args(&self) -> Seq<Seq<u8>> {
        self.added@
    }

    pub closed spec fn wf(&self) -> bool {
        &&& self.raw@ == encode_args(self.added@)
        &&& self.lengths@ == encode_lengths(self.added@)
    }

    pub fn new() -> (r: Self)
        ensures
            r.wf(),
            r.args() == Seq::<Seq<u8>>::empty(),
    {
        let r = ExecArgs { raw: Vec::new(), lengths: Vec::new(), added: Ghost(Seq::empty()) };
        assert(r.lengths@ =~= encode_lengths(r.added@));
        r
    }

    /// Append a new argument to the list, stored in the form that is later
    /// copied to the stack.
    pub fn add(&mut self, arg: &str) -> (r: &mut Self)
        requires
            old(self).wf(),
            arg.spec_bytes().len() < u32::MAX,
        ensures
            r.wf(),
            r.args() == old(self).args().push(arg.spec_bytes()),
            *final(self) == *final(r),
    {
        let bytes = arg.as_bytes();
        let ghost old_raw = self.raw@;
        self.lengths.push(bytes.len() as u32 + 1);
        let mut i: usize = 0;
        while i < bytes.len()
            invariant
                i <= bytes@.len(),
                self.raw@ == old_raw + bytes@.take(i as int),
                old_raw == encode_args(self.added@),
                self.added@ == old(self).added@,
                bytes@ == arg.spec_bytes(),
                self.lengths@ == encode_lengths(self.added@).push((bytes@.len() + 1) as u32),
                bytes@.len() < u32::MAX,
            decreases bytes@.len() - i,
        {
            self.raw.push(bytes[i]);
            assert(bytes@.take(i + 1) =~= bytes@.take(i as int).push(bytes@[i as int]));
            i = i + 1;
        }
        self.raw.push(0);
        let ghost new_args = self.added@.push(bytes@);
        proof {
            assert(new_args.drop_last() =~= self.added@);
            assert(bytes@.take(bytes@.len() as int) =~= bytes@);
            assert(self.raw@ =~= encode_args(new_args));
            assert(self.lengths@ =~= encode_lengths(new_args));
        }
        self.added = Ghost(new_args);
        self
    }

    pub fn arg_string(&self) -> (r: &Vec<u8>)
        requires
            self.wf(),
        ensures
            r@ == encode_args(self.args()),
    {
        &self.raw
    }

    pub fn arg_lengths(&self) -> (r: &Vec<u32>)
        requires
            self.wf(),
        ensures
            r@ == encode_lengths(self.args()),
    {
        &self.lengths
    }

    pub fn arg_count(&self) -> (r: u32)
        requires
            self.wf(),
            self.args().len() <= u32::MAX,
        ensures
            r == self.args().len(),
    {
        self.lengths.len() as u32
    }

    /// Determine how much stack space is required to copy the argument
    /// information to the task's stack.
    pub fn stack_size(&self) -> (r: usize)
        requires
            self.wf(),
            args_stack_size(encode_args(self.args()).len() as int, self.args().len() as int) <= usize::MAX,
        ensures
            r == args_stack_size(encode_args(self.args()).len() as int, self.args().len() as int),
    {
        let mut string_length = self.raw.len();
        assert(string_length & 3 == string_length % 4) by (bit_vector);
        if string_length & 3 != 0 {
            string_length += 4 - (string_length & 3);
        }
        string_length + self.lengths.len() * 4 + 4
    }
}

} // verus!
