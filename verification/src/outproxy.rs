//! Line accounting for terminal output: the renderer erases exactly as many
//! lines as it wrote on the previous frame, so every write is counted here.

use vstd::prelude::*;

verus! {

/// Counts the newline characters in `buf`.
pub open spec fn spec_count_newlines(buf: Seq<u8>) -> nat
    decreases buf.len(),
{
    if buf.len() == 0 {
        0
    } else {
        spec_count_newlines(buf.drop_last()) + if buf.last() == 10u8 {
            1nat
        } else {
            0nat
        }
    }
}

/// Number of newline bytes (`\n`, 0x0a) in `buf`.
pub fn count_newlines(buf: &[u8]) -> (n: usize)
    ensures
        n == spec_count_newlines(buf@),
{
    let mut n: usize = 0;
    let mut i: usize = 0;
    while i < buf.len()
        invariant
            i <= buf.len(),
            n == spec_count_newlines(buf@.take(i as int)),
            n <= i,
        decreases buf.len() - i,
    {
        proof {
            assert(buf@.take(i + 1 as int).drop_last() =~= buf@.take(i as int));
        }
        if buf[i] == 10u8 {
            n = n + 1;
        }
        i = i + 1;
    }
    proof {
        assert(buf@.take(buf@.len() as int) =~= buf@);
    }
    n
}

/// Tracks how many lines have been written to the terminal since the last
/// erase, so a renderer can clear exactly that many lines before redrawing.
pub struct OutProxy {
    pub n_lines: usize,
}

impl OutProxy {
    /// A fresh proxy that has written nothing yet.
    pub fn new() -> (p: OutProxy)
        ensures
            p.n_lines == 0,
    {
        OutProxy { n_lines: 0 }
    }

    /// Accounts for `buf` having been written to the terminal: the line
    /// counter grows by the number of newlines in `buf`. Saturates at
    /// `usize::MAX` rather than overflowing.
    pub fn record_write(&mut self, buf: &[u8])
        ensures
            old(self).n_lines + spec_count_newlines(buf@) <= usize::MAX ==> final(self).n_lines
                == old(self).n_lines + spec_count_newlines(buf@),
            old(self).n_lines + spec_count_newlines(buf@) > usize::MAX ==> final(self).n_lines
                == usize::MAX,
    {
        let n = count_newlines(buf);
        if self.n_lines <= usize::MAX - n {
            self.n_lines = self.n_lines + n;
        } else {
            self.n_lines = usize::MAX;
        }
    }

    /// Resets the counter after the caller has erased the written lines.
    pub fn reset(&mut self)
        ensures
            final(self).n_lines == 0,
    {
        self.n_lines = 0;
    }
}

} // verus!
