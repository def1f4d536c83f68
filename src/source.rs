//! A byte stream held in memory, read line by line or by exact counts through
//! one cursor.
use crate::error::{Error, ErrorView};
use vstd::prelude::*;

verus! {

/// The number of bytes up to and including the first line feed of `b`, or all
/// of `b` when it holds none.
pub open spec fn raw_line_len(b: Seq<u8>) -> nat
    decreases b.len(),
{
    if b.len() == 0 {
        0
    } else if b[0] == 0x0A {
        1
    } else {
        1 + raw_line_len(b.drop_first())
    }
}

/// The diagnostic of a read that found the stream too short.
pub open spec fn short_read_message() -> Seq<char> {
    "failed to fill whole buffer"@
}

pub proof fn lemma_raw_line_len_bounds(b: Seq<u8>)
    ensures
        raw_line_len(b) <= b.len(),
        b.len() > 0 ==> raw_line_len(b) > 0,
    decreases b.len(),
{
    if b.len() > 0 && b[0] != 0x0A {
        lemma_raw_line_len_bounds(b.drop_first());
    }
}

pub proof fn lemma_raw_line_len_skip(b: Seq<u8>, k: int)
    requires
        0 <= k <= b.len(),
        forall|j: int| 0 <= j < k ==> b[j] != 0x0A,
    ensures
        raw_line_len(b) == k + raw_line_len(b.subrange(k, b.len() as int)),
    decreases k,
{
    if k == 0 {
        assert(b.subrange(0, b.len() as int) =~= b);
    } else {
        lemma_raw_line_len_skip(b.drop_first(), k - 1);
        assert(b.drop_first().subrange(k - 1, b.len() - 1) =~= b.subrange(k, b.len() as int));
    }
}

/// Bytes still to be read from an in-memory stream.
pub struct Source {
    data: Vec<u8>,
    pos: usize,
}

impl View for Source {
    type V = Seq<u8>;

    /// The bytes not yet read.
    closed spec fn view(&self) -> Seq<u8> {
        self.data@.subrange(self.pos as int, self.data@.len() as int)
    }
}

impl Source {
    #[verifier::type_invariant]
    spec fn inv(self) -> bool {
        self.pos <= self.data@.len()
    }

    /// A stream that yields `data` from its start.
    pub fn new(data: Vec<u8>) -> (s: Source)
        ensures
            s@ == data@,
    {
        let s = Source { data, pos: 0 };
        assert(s.data@.subrange(0, s.data@.len() as int) =~= s.data@);
        s
    }

    /// The number of bytes not yet read.
    pub fn remaining(&self) -> (n: usize)
        ensures
            n == self@.len(),
    {
        proof {
            use_type_invariant(self);
        }
        self.data.len() - self.pos
    }

    /// Reads the next line with its line feed, or what is left when no line
    /// feed follows; an empty result means the stream is exhausted.
    pub fn read_line(&mut self) -> (line: Vec<u8>)
        ensures
            line@ == old(self)@.subrange(0, raw_line_len(old(self)@) as int),
            final(self)@ == old(self)@.subrange(
                raw_line_len(old(self)@) as int,
                old(self)@.len() as int,
            ),
    {
        proof {
            use_type_invariant(&*self);
        }
        let ghost rest = self@;
        let start = self.pos;
        let mut i: usize = self.pos;
        let mut line: Vec<u8> = Vec::new();
        while i < self.data.len() && self.data[i] != 0x0A
            invariant
                start == self.pos,
                start <= i <= self.data@.len(),
                rest == self.data@.subrange(start as int, self.data@.len() as int),
                line@ == self.data@.subrange(start as int, i as int),
                forall|j: int| start <= j < i ==> self.data@[j] != 0x0A,
            decreases self.data@.len() - i,
        {
            line.push(self.data[i]);
            i += 1;
            assert(line@ =~= self.data@.subrange(start as int, i as int));
        }
        if i < self.data.len() {
            line.push(self.data[i]);
            i += 1;
        }
        proof {
            let k = if i > start && self.data@[i - 1] == 0x0A { i - 1 - start } else { i - start };
            assert forall|j: int| 0 <= j < k implies rest[j] != 0x0A by {
                assert(rest[j] == self.data@[start + j]);
            }
            lemma_raw_line_len_skip(rest, k as int);
            assert(line@ =~= rest.subrange(0, raw_line_len(rest) as int));
        }
        self.pos = i;
        proof {
            assert(self@ =~= rest.subrange(raw_line_len(rest) as int, rest.len() as int));
        }
        line
    }

    /// Reads exactly `n` bytes. When fewer remain, fails with `Io` and reads
    /// nothing.
    pub fn read_exact(&mut self, n: usize) -> (r: Result<Vec<u8>, Error>)
        ensures
            n <= old(self)@.len() ==> (r matches Ok(b) && b@ == old(self)@.subrange(0, n as int)
                && final(self)@ == old(self)@.subrange(n as int, old(self)@.len() as int)),
            n > old(self)@.len() ==> (r matches Err(e) && e@ == ErrorView::Io(short_read_message())
                && final(self)@ == old(self)@),
    {
        proof {
            use_type_invariant(&*self);
        }
        if n > self.data.len() - self.pos {
            return Err(Error::Io("failed to fill whole buffer".to_owned()));
        }
        let ghost rest = self@;
        let start = self.pos;
        let mut out: Vec<u8> = Vec::with_capacity(n);
        let mut i: usize = 0;
        while i < n
            invariant
                start == self.pos,
                start + n <= self.data@.len(),
                start + n <= usize::MAX,
                0 <= i <= n,
                rest == self.data@.subrange(start as int, self.data@.len() as int),
                out@ == rest.subrange(0, i as int),
            decreases n - i,
        {
            out.push(self.data[start + i]);
            i += 1;
            assert(out@ =~= rest.subrange(0, i as int));
        }
        self.pos = start + n;
        proof {
            assert(self@ =~= rest.subrange(n as int, rest.len() as int));
        }
        Ok(out)
    }
}

} // verus!
