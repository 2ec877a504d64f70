//! Script position: the (line, grapheme) pair carried by every token, and
//! the mathematical position reached after consuming a prefix of the text.

use vstd::prelude::*;

verus! {

/// Script position. `line` is 1-based; `grapheme` counts Unicode scalar
/// values on the current line and resets at each line break.
#[derive(Debug, Clone, Copy)]
pub struct Pos {
    pub line: usize,
    pub grapheme: usize,
}

impl Pos {
    /// The position at the very start of a script.
    pub fn default() -> (r: Self)
        ensures
            r.line == 1,
            r.grapheme == 0,
    {
        Self { line: 1, grapheme: 0 }
    }

    /// It advances according to the unicode character and returns it.
    pub fn advance(&mut self, c: char) -> (r: char)
        requires
            c == '\n' ==> old(self).line < usize::MAX,
            c != '\n' ==> old(self).grapheme < usize::MAX,
        ensures
            r == c,
            c == '\n' ==> final(self).line == old(self).line + 1 && final(self).grapheme == 0,
            c != '\n' ==> final(self).line == old(self).line && final(self).grapheme == old(self).grapheme
                + 1,
    {
        if c == '\n' {
            self.line = self.line + 1;
            self.grapheme = 0;
        } else {
            self.grapheme = self.grapheme + 1;
        }
        c
    }
}

/// The 1-based line number after consuming the first `i` characters of `text`.
pub open spec fn line_at(text: Seq<char>, i: int) -> int
    decreases i,
{
    if i <= 0 {
        1
    } else {
        line_at(text, i - 1) + if text[i - 1] == '\n' {
            1int
        } else {
            0int
        }
    }
}

/// The grapheme counter after consuming the first `i` characters of `text`.
pub open spec fn col_at(text: Seq<char>, i: int) -> int
    decreases i,
{
    if i <= 0 {
        0
    } else if text[i - 1] == '\n' {
        0
    } else {
        col_at(text, i - 1) + 1
    }
}

/// Both position counters stay within the number of consumed characters.
pub proof fn lemma_pos_bounds(text: Seq<char>, i: int)
    requires
        0 <= i,
    ensures
        1 <= line_at(text, i),
        0 <= col_at(text, i),
        line_at(text, i) + col_at(text, i) <= i + 1,
    decreases i,
{
    if i > 0 {
        lemma_pos_bounds(text, i - 1);
    }
}

} // verus!
