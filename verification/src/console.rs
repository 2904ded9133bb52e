//! The console, modeled as data.
//!
//! A [`Console`] holds the input lines that remain to be read and the chunks
//! of text written so far. The host environment owns the real streams: it
//! fills a `Console` with the lines it has read, and renders what the library
//! recorded as written. Reading past the last line stands for the input
//! stream being closed, which every reader reports as [`EndOfInput`].

use vstd::prelude::*;

verus! {

/// The input stream ended before the reader obtained what it needed.
#[derive(Clone, Copy, PartialEq, Eq, Structural, Debug)]
pub struct EndOfInput;

/// A console with scripted input: the lines still to be read, and the chunks
/// written so far.
pub struct Console {
    lines: Vec<String>,
    pos: usize,
    output: Vec<String>,
}

impl Console {
    /// The input lines not yet consumed, oldest first.
    pub closed spec fn remaining(self) -> Seq<Seq<char>> {
        if self.pos <= self.lines.len() {
            self.lines.deep_view().skip(self.pos as int)
        } else {
            Seq::empty()
        }
    }

    /// Every chunk written so far, in order.
    pub closed spec fn written(self) -> Seq<Seq<char>> {
        self.output.deep_view()
    }

    /// A console that will serve exactly `lines`, with nothing written yet.
    pub fn new(lines: Vec<String>) -> (c: Console)
        ensures
            c.remaining() == lines.deep_view(),
            c.written() == Seq::<Seq<char>>::empty(),
    {
        let c = Console { lines, pos: 0, output: Vec::new() };
        proof {
            assert(c.remaining() =~= c.lines.deep_view());
            assert(c.written() =~= Seq::<Seq<char>>::empty());
        }
        c
    }

    /// Consumes and returns the next raw line, or `None` when the input is
    /// exhausted.
    pub fn next_line(&mut self) -> (r: Option<String>)
        ensures
            final (self).written() == old(self).written(),
            match r {
                Some(l) => old(self).remaining().len() > 0 && l@ == old(self).remaining()[0]
                    && final (self).remaining() == old(self).remaining().drop_first(),
                None => old(self).remaining().len() == 0 && final (self).remaining() == old(
                    self,
                ).remaining(),
            },
    {
        if self.pos < self.lines.len() {
            let l = self.lines[self.pos].clone();
            self.pos = self.pos + 1;
            proof {
                assert(final (self).remaining() =~= old(self).remaining().drop_first());
            }
            Some(l)
        } else {
            None
        }
    }

    /// Records `chunk` as written to the output stream.
    pub fn write_chunk(&mut self, chunk: String)
        ensures
            final (self).remaining() == old(self).remaining(),
            final (self).written() == old(self).written().push(chunk@),
    {
        self.output.push(chunk);
        proof {
            assert(final (self).written() =~= old(self).written().push(chunk@));
        }
    }

    /// How many input lines are still to be read.
    pub fn remaining_len(&self) -> (n: usize)
        ensures
            n == self.remaining().len(),
    {
        if self.pos <= self.lines.len() {
            self.lines.len() - self.pos
        } else {
            0
        }
    }

    /// The chunks written so far, for the host to render.
    pub fn written_chunks(&self) -> (r: &Vec<String>)
        ensures
            r.deep_view() == self.written(),
    {
        &self.output
    }
}

} // verus!
