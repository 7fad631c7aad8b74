//! The position algebra: `(row, col)` coordinates and their arithmetic.

use vstd::prelude::*;

use crate::text::split_lines;

verus! {

/// A coordinate inside a buffer.
///
/// `row` indexes the line (0-based, increasing downwards) and `col` the
/// code-unit offset within that line (0-based, increasing rightwards).
/// `col` may equal the line's length, denoting the insertion point after
/// the last character; on an empty line only `col == 0` is valid.
///
/// Positions are ordered lexicographically; see [`pos_le`].
#[derive(Debug, Clone, Copy, PartialEq, Eq, Structural, Hash)]
pub struct Position {
    pub row: usize,
    pub col: usize,
}

/// `a` is at or before `b` in the lexicographic order on `(row, col)`.
pub open spec fn pos_le(a: Position, b: Position) -> bool {
    a.row < b.row || (a.row == b.row && a.col <= b.col)
}

/// `a` is strictly before `b`.
pub open spec fn pos_lt(a: Position, b: Position) -> bool {
    a.row < b.row || (a.row == b.row && a.col < b.col)
}

/// What [`Position::offset`] computes: `by` displaces `base`, landing on
/// `by`'s own column once the displacement spans at least one full line.
pub open spec fn pos_offset(base: Position, by: Position) -> Position {
    if by.row == 0 {
        Position { row: base.row, col: (base.col + by.col) as usize }
    } else {
        Position { row: (base.row + by.row) as usize, col: by.col }
    }
}

impl Position {
    pub fn new(row: usize, col: usize) -> (p: Position)
        ensures
            p == (Position { row, col }),
    {
        Position { row, col }
    }

    /// The top-left corner of any buffer.
    pub fn origin() -> (p: Position)
        ensures
            p == (Position { row: 0, col: 0 }),
    {
        Position { row: 0, col: 0 }
    }

    pub fn next_col(self) -> (p: Position)
        requires
            self.col < usize::MAX,
        ensures
            p == (Position { row: self.row, col: (self.col + 1) as usize }),
    {
        Position { row: self.row, col: self.col + 1 }
    }

    pub fn next_row(self) -> (p: Position)
        requires
            self.row < usize::MAX,
        ensures
            p == (Position { row: (self.row + 1) as usize, col: self.col }),
    {
        Position { row: self.row + 1, col: self.col }
    }

    /// One column to the left, saturating at 0.
    pub fn prev_col(self) -> (p: Position)
        ensures
            p.row == self.row,
            p.col == if self.col == 0 { 0int } else { self.col - 1 },
    {
        Position { row: self.row, col: if self.col == 0 { 0 } else { self.col - 1 } }
    }

    /// One row up, saturating at 0.
    pub fn prev_row(self) -> (p: Position)
        ensures
            p.col == self.col,
            p.row == if self.row == 0 { 0int } else { self.row - 1 },
    {
        Position { row: if self.row == 0 { 0 } else { self.row - 1 }, col: self.col }
    }

    /// Whether `self` is at or before `other`.
    pub fn le(&self, other: &Position) -> (r: bool)
        ensures
            r == pos_le(*self, *other),
    {
        self.row < other.row || (self.row == other.row && self.col <= other.col)
    }

    /// The position of the insertion point at the end of `text` when
    /// `text` is split on newlines: its last line and that line's length.
    /// The empty string yields the origin.
    pub fn max_text_pos(text: &str) -> (p: Position)
        ensures
            p.row as int == split_lines(text@).len() - 1,
            p.col as int == split_lines(text@).last().len(),
    {
        let n: usize = text.unicode_len();
        let mut i: usize = 0;
        let mut row: usize = 0;
        let mut seg_start: usize = 0;
        proof {
            assert(text@.take(0) =~= Seq::<char>::empty());
            crate::text::lemma_first_nl_is(Seq::<char>::empty(), 0);
        }
        while i < n
            invariant
                0 <= i <= n,
                n == text@.len(),
                row <= i,
                row as int == split_lines(text@.take(i as int)).len() - 1,
                seg_start as int == i - split_lines(text@.take(i as int)).last().len(),
                seg_start <= i,
            decreases n - i,
        {
            let c = text.get_char(i);
            proof {
                crate::text::lemma_split_lines_push(text@.take(i as int), c);
                assert(text@.take(i + 1) =~= text@.take(i as int).push(text@[i as int]));
            }
            if c == '\n' {
                row = row + 1;
                seg_start = i + 1;
            }
            i = i + 1;
        }
        proof {
            assert(text@.take(n as int) =~= text@);
        }
        Position { row, col: n - seg_start }
    }

    /// The host-editor rendering of this position; see [`NativePosition`].
    pub fn to_native(&self) -> (n: NativePosition)
        requires
            self.row < usize::MAX,
            self.col < usize::MAX,
        ensures
            n.row == self.row + 1,
            n.col == self.col + 1,
    {
        NativePosition { row: self.row + 1, col: self.col + 1 }
    }

    /// Displace `self` by `by`; see [`pos_offset`].
    pub fn offset(&self, by: &Position) -> (p: Position)
        requires
            by.row == 0 ==> self.col + by.col <= usize::MAX,
            by.row != 0 ==> self.row + by.row <= usize::MAX,
        ensures
            p == pos_offset(*self, *by),
    {
        if by.row == 0 {
            Position { row: self.row, col: self.col + by.col }
        } else {
            Position { row: self.row + by.row, col: by.col }
        }
    }
}

/// A position in the 1-based coordinate convention of host editors:
/// `(1, 1)` is the top-left corner. Only the conversions live here; all
/// of the library's own arithmetic stays 0-based.
#[derive(Debug, Clone, Copy, PartialEq, Eq, Structural, Hash)]
pub struct NativePosition {
    pub row: usize,
    pub col: usize,
}

impl NativePosition {
    /// Back to the library's 0-based convention, saturating at the
    /// origin for host values that start a row or column at 0.
    pub fn to_position(&self) -> (p: Position)
        ensures
            p.row == if self.row == 0 { 0int } else { self.row - 1 },
            p.col == if self.col == 0 { 0int } else { self.col - 1 },
    {
        Position {
            row: if self.row == 0 { 0 } else { self.row - 1 },
            col: if self.col == 0 { 0 } else { self.col - 1 },
        }
    }
}

} // verus!
