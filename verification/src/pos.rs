//! Positions in a source text.

use vstd::prelude::*;

verus! {

/// A character and a line, both counted from zero.
#[derive(Debug, Copy, Clone)]
pub struct Pos {
    pub chr: i32,
    pub line: i32,
}

impl Pos {
    /// The start of a text.
    pub fn new() -> (p: Pos)
        ensures
            p.chr == 0,
            p.line == 0,
    {
        Pos { chr: 0, line: 0 }
    }

    /// Steps over one character of the current line.
    pub fn next_char(&mut self)
        requires
            old(self).chr < i32::MAX,
        ensures
            final(self).chr == old(self).chr + 1,
            final(self).line == old(self).line,
    {
        self.chr += 1;
    }

    /// Steps to the start of the next line.
    pub fn next_line(&mut self)
        requires
            old(self).line < i32::MAX,
        ensures
            final(self).line == old(self).line + 1,
            final(self).chr == 0,
    {
        self.line += 1;
        self.chr = 0;
    }
}

/// A stretch of a source text, from `start` to `end`.
#[derive(Debug, Copy, Clone)]
pub struct Range {
    pub start: Pos,
    pub end: Pos,
}

} // verus!
