use vstd::prelude::*;

verus! {

/// Byte offset into the two-buffer address space: offsets below the source
/// length index the original text, larger offsets index the auxiliary buffer.
pub type Location = u32;

/// Half-open byte range `start..end`.
#[derive(Debug, Clone, Copy, PartialEq, Eq, Structural)]
pub struct Span {
    pub start: Location,
    pub end: Location,
}

impl Span {
    /// Shift the whole range down by `by` bytes.
    pub fn move_left(self, by: u32) -> (r: Self)
        requires
            by <= self.start,
            by <= self.end,
        ensures
            r.start == self.start - by,
            r.end == self.end - by,
    {
        Self { start: self.start - by, end: self.end - by }
    }

    /// Drop the first `amount` bytes of the range.
    pub fn remove_prefix(self, amount: u32) -> (r: Self)
        requires
            self.start + amount <= u32::MAX,
        ensures
            r.start == self.start + amount,
            r.end == self.end,
    {
        Self { start: self.start + amount, end: self.end }
    }

    /// Drop the last `amount` bytes of the range.
    pub fn remove_suffix(self, amount: u32) -> (r: Self)
        requires
            amount <= self.end,
        ensures
            r.start == self.start,
            r.end == self.end - amount,
    {
        Self { start: self.start, end: self.end - amount }
    }
}

/// Number of newline bytes in `s`.
pub open spec fn count_newlines(s: Seq<u8>) -> int
    decreases s.len(),
{
    if s.len() == 0 {
        0
    } else {
        count_newlines(s.drop_last()) + if s.last() == 10u8 {
            1int
        } else {
            0int
        }
    }
}

/// Offset of the first byte of the line containing offset `loc`:
/// zero, or the offset just after the last newline before `loc`.
pub open spec fn line_start(s: Seq<u8>, loc: int) -> int
    decreases loc,
{
    if loc <= 0 {
        0
    } else if s[loc - 1] == 10u8 {
        loc
    } else {
        line_start(s, loc - 1)
    }
}

/// A zero-indexed line/column position, derived from a byte offset.
#[derive(Debug, Clone, Copy, PartialEq, Eq, Structural)]
pub struct LineAndColumn {
    /// Zero-indexed.
    pub line: Location,
    /// Zero-indexed.
    pub column: Location,
}

proof fn lemma_line_start_bound(s: Seq<u8>, loc: int)
    requires
        loc >= 0,
    ensures
        0 <= line_start(s, loc) <= loc,
    decreases loc,
{
    if loc > 0 && s[loc - 1] != 10u8 {
        lemma_line_start_bound(s, loc - 1);
    }
}

impl LineAndColumn {
    /// Locate the line holding the byte at offset `location` and the offset's
    /// column within it, both zero-indexed.
    pub fn from_location_and_source(location: Location, source: &[u8]) -> (r: Self)
        requires
            location <= source@.len(),
        ensures
            r.line == count_newlines(source@.subrange(0, location as int)),
            r.column == location - line_start(source@, location as int),
    {
        let loc = location as usize;
        let mut line: u32 = 0;
        let mut i: usize = 0;
        while i < loc
            invariant
                0 <= i <= loc,
                loc <= source@.len(),
                loc == location,
                line == count_newlines(source@.subrange(0, i as int)),
                line <= i,
            decreases loc - i,
        {
            proof {
                assert(source@.subrange(0, i + 1).drop_last() =~= source@.subrange(0, i as int));
                assert(source@.subrange(0, i + 1).last() == source@[i as int]);
            }
            if source[i] == 10 {
                line = line + 1;
            }
            i = i + 1;
        }

        let mut start: usize = loc;
        while start > 0 && source[start - 1] != 10
            invariant
                0 <= start <= loc,
                loc <= source@.len(),
                line_start(source@, loc as int) == line_start(source@, start as int),
            decreases start,
        {
            start = start - 1;
        }
        proof {
            lemma_line_start_bound(source@, loc as int);
        }

        Self { line, column: location - start as u32 }
    }
}

} // verus!
