//! The buffer: line-addressed text with range edits, a mark table and a
//! cursor.
//!
//! [`TextBuffer`] is the store itself. Reads address lines and positions;
//! the one primitive write is [`TextBuffer::set_text`], a splice, and the
//! remaining writes are spelled in terms of it. Every edit drifts the
//! marks by gravity and keeps the cursor inside the buffer.

use vstd::prelude::*;

use crate::error::BufferError;
use crate::mark::{drift_col, drift_row, lemma_drift_valid, marks_drifted, Gravity, MarkEntry};
use crate::position::{pos_le, Position};
use crate::text::{
    join_lines, join_text, lines_ok, pos_valid, split_lines, split_text, splice_lines,
};

verus! {

/// The error [`TextBuffer::validate_pos`] reports for an invalid `p`:
/// the row bound is checked before the column bound.
pub open spec fn validate_error(ls: Seq<Seq<char>>, p: Position) -> BufferError {
    if p.row >= ls.len() {
        BufferError::RowOutOfBounds { row: p.row as isize, limit: (ls.len() - 1) as isize }
    } else {
        BufferError::ColOutOfBounds {
            col: p.col as isize,
            limit: ls[p.row as int].len() as isize,
        }
    }
}

/// The row where an edit leaves a cursor that sat at `p`: unchanged while
/// still inside the buffer, else the last row.
pub open spec fn clamp_row(ls: Seq<Seq<char>>, p: Position) -> int {
    if p.row < ls.len() {
        p.row as int
    } else {
        ls.len() - 1
    }
}

/// The column to go with [`clamp_row`]: unchanged while still inside its
/// line, else the line's end.
pub open spec fn clamp_col(ls: Seq<Seq<char>>, p: Position) -> int {
    if p.col <= ls[clamp_row(ls, p)].len() {
        p.col as int
    } else {
        ls[clamp_row(ls, p)].len() as int
    }
}

/// The shape every well-formed buffer keeps: at least one line, so that
/// the last row is always addressable, and the stored cursor is a
/// position of the text. Together with the contracts of
/// [`TextBuffer::max_row`], [`TextBuffer::get_line`] and
/// [`TextBuffer::max_pos`], this says the line at `max_row` exists and
/// `max_pos` sits at that line's end.
pub proof fn law_buffer_shape(b: &TextBuffer)
    requires
        b.wf(),
    ensures
        b.text().len() >= 1,
        0 <= b.text().len() - 1 < b.text().len(),
        pos_valid(b.text(), b.cursor_pos()),
{
}

/// The last insertion point of `ls`: the end of its last line.
pub open spec fn last_pos(ls: Seq<Seq<char>>) -> Position {
    Position { row: (ls.len() - 1) as usize, col: ls.last().len() as usize }
}

/// Where "insert after `p`" lands: one column right of `p` when that is
/// itself a position of the buffer, else `p` (there is no column after
/// the end of a line, so the insertion degenerates to one at `p`).
pub open spec fn append_target(ls: Seq<Seq<char>>, p: Position) -> Position {
    if p.row < ls.len() && p.col < ls[p.row as int].len() {
        Position { row: p.row, col: (p.col + 1) as usize }
    } else {
        p
    }
}

/// An in-memory buffer: a non-empty vector of newline-free lines, the
/// marks living in it, and a cursor.
pub struct TextBuffer {
    pub lines: Vec<String>,
    pub marks: Vec<MarkEntry>,
    pub next_mark_id: u64,
    pub cursor: Position,
}

impl TextBuffer {
    /// The lines, as the mathematical model sees them.
    pub open spec fn text(&self) -> Seq<Seq<char>> {
        self.lines.deep_view()
    }

    /// The mark table, in order of creation.
    pub open spec fn mark_entries(&self) -> Seq<MarkEntry> {
        self.marks@
    }

    /// The stored cursor.
    pub open spec fn cursor_pos(&self) -> Position {
        self.cursor
    }

    /// The id the next created mark will get.
    pub open spec fn fresh_mark_id(&self) -> u64 {
        self.next_mark_id
    }

    /// Every buffer keeps this shape: at least one line, no stray
    /// newlines, marks and cursor inside the text, mark ids distinct and
    /// below the next id to be minted.
    pub open spec fn wf(&self) -> bool {
        &&& lines_ok(self.text())
        &&& pos_valid(self.text(), self.cursor)
        &&& forall|i: int|
            0 <= i < self.marks@.len() ==> pos_valid(self.text(), (#[trigger] self.marks@[i]).pos)
        &&& forall|i: int, j: int|
            0 <= i < j < self.marks@.len() ==> self.marks@[i].id != self.marks@[j].id
        &&& forall|i: int|
            0 <= i < self.marks@.len() ==> (#[trigger] self.marks@[i]).id.0 < self.next_mark_id
    }

    /// A fresh, empty buffer: one empty line, no marks, cursor at the
    /// origin.
    pub fn new() -> (b: TextBuffer)
        ensures
            b.wf(),
            b.text() =~~= seq![Seq::<char>::empty()],
            b.mark_entries() =~= Seq::<MarkEntry>::empty(),
            b.cursor_pos() == (Position { row: 0, col: 0 }),
    {
        let mut lines: Vec<String> = Vec::new();
        lines.push(String::new());
        let b = TextBuffer {
            lines,
            marks: Vec::new(),
            next_mark_id: 0,
            cursor: Position { row: 0, col: 0 },
        };
        proof {
            assert(b.text() =~~= seq![Seq::<char>::empty()]);
        }
        b
    }

    /// How many lines the buffer holds; always at least one.
    pub fn line_count(&self) -> (n: usize)
        ensures
            n == self.text().len(),
            self.wf() ==> n >= 1,
    {
        self.lines.len()
    }

    /// The greatest valid row.
    pub fn max_row(&self) -> (r: usize)
        requires
            self.wf(),
        ensures
            r as int == self.text().len() - 1,
    {
        self.lines.len() - 1
    }

    /// The line at `row`, or a row bounds error.
    pub fn get_line(&self, row: usize) -> (r: Result<String, BufferError>)
        requires
            self.wf(),
        ensures
            row < self.text().len() ==> (r matches Ok(s) && s@ == self.text()[row as int]),
            row >= self.text().len() ==> (r matches Err(e) && e == (BufferError::RowOutOfBounds {
                row: row as isize,
                limit: (self.text().len() - 1) as isize,
            })),
    {
        if row >= self.lines.len() {
            return Err(
                BufferError::RowOutOfBounds { row: row as isize, limit: (self.lines.len() - 1) as isize },
            );
        }
        Ok(self.lines[row].clone())
    }

    /// The lines with rows in `[start, end)`, or a row bounds error when
    /// the range reaches past the last line.
    pub fn get_lines(&self, start: usize, end: usize) -> (r: Result<Vec<String>, BufferError>)
        requires
            self.wf(),
            start <= end,
        ensures
            end <= self.text().len() ==> (r matches Ok(v) && v.deep_view() == self.text().subrange(
                start as int,
                end as int,
            )),
            end > self.text().len() ==> (r matches Err(e) && e == (BufferError::RowOutOfBounds {
                row: (end - 1) as isize,
                limit: (self.text().len() - 1) as isize,
            })),
    {
        if end > self.lines.len() {
            return Err(
                BufferError::RowOutOfBounds {
                    row: (end - 1) as isize,
                    limit: (self.lines.len() - 1) as isize,
                },
            );
        }
        let mut v: Vec<String> = Vec::new();
        let mut i: usize = start;
        while i < end
            invariant
                start <= i <= end,
                end <= self.lines@.len(),
                v.deep_view() =~~= self.text().subrange(start as int, i as int),
            decreases end - i,
        {
            let ghost prev = v.deep_view();
            v.push(self.lines[i].clone());
            proof {
                assert(v@.last()@ == self.text()[i as int]);
                assert(v.deep_view() =~~= prev.push(self.text()[i as int]));
                assert(v.deep_view() =~~= self.text().subrange(start as int, i + 1));
            }
            i = i + 1;
        }
        Ok(v)
    }

    /// Every line of the buffer, in order.
    pub fn get_all_lines(&self) -> (v: Vec<String>)
        requires
            self.wf(),
        ensures
            v.deep_view() == self.text(),
    {
        let r = self.get_lines(0, self.lines.len());
        proof {
            assert(self.text().subrange(0, self.text().len() as int) =~~= self.text());
        }
        match r {
            Ok(v) => v,
            Err(_) => Vec::new(),  // unreachable: the full range is always in bounds
        }
    }

    /// The whole buffer serialized: lines joined with newlines.
    pub fn get_content(&self) -> (s: String)
        requires
            self.wf(),
        ensures
            s@ == join_lines(self.text()),
    {
        join_text(&self.lines)
    }

    /// The insertion point at the end of `row`, or a row bounds error.
    pub fn max_row_pos(&self, row: usize) -> (r: Result<Position, BufferError>)
        requires
            self.wf(),
        ensures
            row < self.text().len() ==> (r matches Ok(p) && p.row == row && p.col as int
                == self.text()[row as int].len()),
            row >= self.text().len() ==> (r matches Err(e) && e == (BufferError::RowOutOfBounds {
                row: row as isize,
                limit: (self.text().len() - 1) as isize,
            })),
    {
        if row >= self.lines.len() {
            return Err(
                BufferError::RowOutOfBounds { row: row as isize, limit: (self.lines.len() - 1) as isize },
            );
        }
        Ok(Position { row, col: self.lines[row].unicode_len() })
    }

    /// The last insertion point of the buffer: end of its last line.
    pub fn max_pos(&self) -> (p: Position)
        requires
            self.wf(),
        ensures
            p.row as int == self.text().len() - 1,
            p.col as int == self.text().last().len(),
            pos_valid(self.text(), p),
    {
        let row = self.lines.len() - 1;
        Position { row, col: self.lines[row].unicode_len() }
    }

    /// Checks that `p` addresses a line and a column inside the buffer.
    /// Row bounds are checked first, as [`BufferError`] reports them.
    pub fn validate_pos(&self, p: &Position) -> (r: Result<(), BufferError>)
        requires
            self.wf(),
        ensures
            r is Ok <==> pos_valid(self.text(), *p),
            p.row >= self.text().len() ==> (r matches Err(e) && e == (BufferError::RowOutOfBounds {
                row: p.row as isize,
                limit: (self.text().len() - 1) as isize,
            })),
            p.row < self.text().len() && p.col > self.text()[p.row as int].len() ==> (r matches Err(
                e,
            ) && e == (BufferError::ColOutOfBounds {
                col: p.col as isize,
                limit: self.text()[p.row as int].len() as isize,
            })),
    {
        if p.row >= self.lines.len() {
            return Err(
                BufferError::RowOutOfBounds {
                    row: p.row as isize,
                    limit: (self.lines.len() - 1) as isize,
                },
            );
        }
        let len = self.lines[p.row].unicode_len();
        if p.col > len {
            return Err(BufferError::ColOutOfBounds { col: p.col as isize, limit: len as isize });
        }
        Ok(())
    }

    /// Replaces the text between `start` and `end` (half-open) with
    /// `text`, which may span lines. On success the lines take the shape
    /// of [`splice_lines`], every mark drifts as [`drift_row`] and
    /// [`drift_col`] dictate, and a cursor that the edit left outside the
    /// buffer is clamped back in. An endpoint that fails to validate
    /// leaves the buffer untouched; `start` is checked first.
    #[verifier::loop_isolation(false)]
    #[verifier::rlimit(100)]
    pub fn set_text(&mut self, start: &Position, end: &Position, text: &str) -> (r: Result<
        (),
        BufferError,
    >)
        requires
            old(self).wf(),
            pos_le(*start, *end),
        ensures
            final(self).wf(),
            r is Ok <==> pos_valid(old(self).text(), *start) && pos_valid(old(self).text(), *end),
            !pos_valid(old(self).text(), *start) ==> *final(self) == *old(self) && (r matches Err(e) && e
                == validate_error(old(self).text(), *start)),
            pos_valid(old(self).text(), *start) && !pos_valid(old(self).text(), *end) ==> *final(self)
                == *old(self) && (r matches Err(e) && e == validate_error(old(self).text(), *end)),
            r is Ok ==> final(self).text() == splice_lines(
                old(self).text(),
                *start,
                *end,
                split_lines(text@),
            ),
            r is Ok ==> marks_drifted(
                old(self).marks@,
                final(self).marks@,
                *start,
                *end,
                split_lines(text@),
            ),
            r is Ok ==> final(self).cursor.row as int == clamp_row(final(self).text(), old(self).cursor)
                && final(self).cursor.col as int == clamp_col(final(self).text(), old(self).cursor),
            final(self).next_mark_id == old(self).next_mark_id,
    {
        if let Err(e) = self.validate_pos(start) {
            return Err(e);
        }
        if let Err(e) = self.validate_pos(end) {
            return Err(e);
        }
        let d = Position::max_text_pos(text);
        let total0 = self.lines.len();
        let ins = split_text(text);
        let ghost t0 = self.text();
        let ghost insv = ins.deep_view();
        let ghost spliced = splice_lines(t0, *start, *end, insv);
        proof {
            crate::text::lemma_split_lines_wf(text@);
            crate::text::lemma_splice_wf(t0, *start, *end, insv);
        }

        let pre: String = self.lines[start.row].as_str().substring_char(0, start.col).to_owned();
        let end_line_len = self.lines[end.row].unicode_len();
        let suf: String = self.lines[end.row].as_str().substring_char(
            end.col,
            end_line_len,
        ).to_owned();

        let mut out: Vec<String> = Vec::new();
        let mut i: usize = 0;
        while i < start.row
            invariant
                0 <= i <= start.row,
                out.deep_view() =~~= spliced.take(i as int),
            decreases start.row - i,
        {
            let ghost prev = out.deep_view();
            out.push(self.lines[i].clone());
            proof {
                assert(out.deep_view() =~~= prev.push(t0[i as int]));
                assert(out.deep_view() =~~= spliced.take(i + 1));
            }
            i = i + 1;
        }

        let m = ins.len();
        let mut j: usize = 0;
        while j < m
            invariant
                0 <= j <= m,
                out.deep_view() =~~= spliced.take(start.row + j),
            decreases m - j,
        {
            let mut piece: String;
            if j == 0 {
                piece = pre.clone();
                piece.append(ins[0].as_str());
            } else {
                piece = ins[j].clone();
            }
            if j == m - 1 {
                piece.append(suf.as_str());
            }
            let ghost prev = out.deep_view();
            out.push(piece);
            proof {
                assert(out.deep_view() =~~= prev.push(spliced[start.row + j]));
                assert(out.deep_view() =~~= spliced.take(start.row + j + 1));
            }
            j = j + 1;
        }

        proof {
            assert(end.row < total0);
        }
        let mut i2: usize = end.row + 1;
        while i2 < total0
            invariant
                end.row + 1 <= i2 <= total0,
                out.deep_view() =~~= spliced.take(start.row + m + (i2 - end.row - 1)),
            decreases total0 - i2,
        {
            let ghost prev = out.deep_view();
            out.push(self.lines[i2].clone());
            proof {
                assert(out.deep_view() =~~= prev.push(t0[i2 as int]));
                assert(out.deep_view() =~~= spliced.take(start.row + m + (i2 - end.row - 1) + 1));
            }
            i2 = i2 + 1;
        }
        proof {
            assert(out.deep_view() =~~= spliced);
        }
        self.lines = out;

        // Drift the marks over the edit. The new line count is measured
        // only to bound the row sums below.
        let _line_total = self.lines.len();
        let mut k: usize = 0;
        while k < self.marks.len()
            invariant
                0 <= k <= self.marks@.len(),
                self.marks@.len() == old(self).marks@.len(),
                forall|x: int| k <= x < self.marks@.len() ==> self.marks@[x] == old(self).marks@[x],
                forall|x: int|
                    0 <= x < k ==> {
                        let e = old(self).marks@[x];
                        let dr = insv.len() - 1;
                        let dc = insv.last().len() as int;
                        &&& (#[trigger] self.marks@[x]).id == e.id
                        &&& self.marks@[x].gravity == e.gravity
                        &&& self.marks@[x].pos.row as int == drift_row(
                            e.pos,
                            *start,
                            *end,
                            dr,
                            e.gravity,
                        )
                        &&& self.marks@[x].pos.col as int == drift_col(
                            e.pos,
                            *start,
                            *end,
                            dr,
                            dc,
                            e.gravity,
                        )
                        &&& pos_valid(spliced, self.marks@[x].pos)
                    },
                self.lines.deep_view() == spliced,
                self.next_mark_id == old(self).next_mark_id,
                self.cursor == old(self).cursor,
            decreases self.marks@.len() - k,
        {
            let e = self.marks[k];
            proof {
                lemma_drift_valid(t0, *start, *end, insv, e.pos, e.gravity);
            }
            let before_edit = e.pos.row < start.row || (e.pos.row == start.row && e.pos.col
                < start.col);
            let within_edit = !before_edit && (e.pos.row < end.row || (e.pos.row == end.row
                && e.pos.col <= end.col));
            let np: Position;
            if before_edit {
                np = e.pos;
            } else if within_edit {
                match e.gravity {
                    Gravity::Left => { np = *start; },
                    Gravity::Right => {
                        let row = start.row + d.row;
                        // Measured only to bound the column sum below.
                        let _line_len = self.lines[row].unicode_len();
                        let col = if d.row == 0 {
                            start.col + d.col
                        } else {
                            d.col
                        };
                        np = Position { row, col };
                    },
                }
            } else if e.pos.row == end.row {
                let row = start.row + d.row;
                // Measured only to bound the column sums below.
                let _line_len = self.lines[row].unicode_len();
                let col = if d.row == 0 {
                    start.col + d.col + (e.pos.col - end.col)
                } else {
                    d.col + (e.pos.col - end.col)
                };
                np = Position { row, col };
            } else {
                let row = e.pos.row - (end.row - start.row) + d.row;
                np = Position { row, col: e.pos.col };
            }
            self.marks.set(k, MarkEntry { id: e.id, pos: np, gravity: e.gravity });
            k = k + 1;
        }

        // Clamp the cursor back into the buffer.
        let cr = if self.cursor.row < self.lines.len() {
            self.cursor.row
        } else {
            self.lines.len() - 1
        };
        let clen = self.lines[cr].unicode_len();
        let cc = if self.cursor.col <= clen {
            self.cursor.col
        } else {
            clen
        };
        self.cursor = Position { row: cr, col: cc };
        Ok(())
    }

    /// Replaces the whole content: an edit over the buffer's full range.
    /// The buffer afterwards holds exactly `text`, reparsed into lines;
    /// writing back what [`Self::get_content`] returned is a no-op.
    pub fn set_content(&mut self, text: &str) -> (r: Result<(), BufferError>)
        requires
            old(self).wf(),
        ensures
            final(self).wf(),
            r is Ok,
            final(self).text() == split_lines(text@),
            text@ == join_lines(old(self).text()) ==> final(self).text() == old(self).text(),
            marks_drifted(
                old(self).marks@,
                final(self).marks@,
                Position { row: 0, col: 0 },
                last_pos(old(self).text()),
                split_lines(text@),
            ),
            final(self).next_mark_id == old(self).next_mark_id,
    {
        let a = Position { row: 0, col: 0 };
        let b = self.max_pos();
        let ghost t0 = self.text();
        let r = self.set_text(&a, &b, text);
        proof {
            let ins = split_lines(text@);
            crate::text::lemma_split_lines_wf(text@);
            assert(b == last_pos(t0));
            assert(splice_lines(t0, a, b, ins) =~~= ins);
            crate::text::lemma_join_then_split(t0);
            if text@ == join_lines(t0) {
                assert(final(self).text() =~~= t0);
            }
        }
        r
    }

    /// Replaces row `row` in full, end of line included. `line` may hold
    /// newlines, in which case the row is replaced by several.
    pub fn set_line(&mut self, row: usize, line: &str) -> (r: Result<(), BufferError>)
        requires
            old(self).wf(),
        ensures
            final(self).wf(),
            r is Ok <==> row < old(self).text().len(),
            row >= old(self).text().len() ==> *final(self) == *old(self) && (r matches Err(e) && e
                == (BufferError::RowOutOfBounds {
                row: row as isize,
                limit: (old(self).text().len() - 1) as isize,
            })),
            r is Ok ==> final(self).text() == splice_lines(
                old(self).text(),
                Position { row, col: 0 },
                Position { row, col: old(self).text()[row as int].len() as usize },
                split_lines(line@),
            ),
            r is Ok ==> marks_drifted(
                old(self).marks@,
                final(self).marks@,
                Position { row, col: 0 },
                Position { row, col: old(self).text()[row as int].len() as usize },
                split_lines(line@),
            ),
            final(self).next_mark_id == old(self).next_mark_id,
    {
        let row_end = match self.max_row_pos(row) {
            Ok(p) => p,
            Err(e) => {
                return Err(e);
            },
        };
        self.set_text(&Position { row, col: 0 }, &row_end, line)
    }

    /// Inserts `text` at `position`: the splice `[position, position)`.
    pub fn prepend_at_position(&mut self, position: &Position, text: &str) -> (r: Result<
        (),
        BufferError,
    >)
        requires
            old(self).wf(),
        ensures
            final(self).wf(),
            r is Ok <==> pos_valid(old(self).text(), *position),
            !pos_valid(old(self).text(), *position) ==> *final(self) == *old(self) && (r matches Err(
                e,
            ) && e == validate_error(old(self).text(), *position)),
            r is Ok ==> final(self).text() == splice_lines(
                old(self).text(),
                *position,
                *position,
                split_lines(text@),
            ),
            r is Ok ==> marks_drifted(
                old(self).marks@,
                final(self).marks@,
                *position,
                *position,
                split_lines(text@),
            ),
            final(self).next_mark_id == old(self).next_mark_id,
    {
        self.set_text(position, position, text)
    }

    /// Inserts `text` after the character at `position`: one column to
    /// the right when that is still inside the line, at `position` itself
    /// when it sits at a line's end (see [`append_target`]).
    pub fn append_at_position(&mut self, position: &Position, text: &str) -> (r: Result<
        (),
        BufferError,
    >)
        requires
            old(self).wf(),
        ensures
            final(self).wf(),
            r is Ok <==> pos_valid(old(self).text(), *position),
            !pos_valid(old(self).text(), *position) ==> *final(self) == *old(self) && (r matches Err(
                e,
            ) && e == validate_error(old(self).text(), *position)),
            r is Ok ==> final(self).text() == splice_lines(
                old(self).text(),
                append_target(old(self).text(), *position),
                append_target(old(self).text(), *position),
                split_lines(text@),
            ),
            r is Ok ==> marks_drifted(
                old(self).marks@,
                final(self).marks@,
                append_target(old(self).text(), *position),
                append_target(old(self).text(), *position),
                split_lines(text@),
            ),
            final(self).next_mark_id == old(self).next_mark_id,
    {
        let next_is_inside = position.row < self.lines.len() && position.col
            < self.lines[position.row].unicode_len();
        let q = if next_is_inside {
            Position { row: position.row, col: position.col + 1 }
        } else {
            *position
        };
        self.set_text(&q, &q, text)
    }

    /// Appends `text` at the very end of the buffer; the content grows by
    /// exactly `text`.
    pub fn append(&mut self, text: &str) -> (r: Result<(), BufferError>)
        requires
            old(self).wf(),
        ensures
            final(self).wf(),
            r is Ok,
            final(self).text() == splice_lines(
                old(self).text(),
                last_pos(old(self).text()),
                last_pos(old(self).text()),
                split_lines(text@),
            ),
            join_lines(final(self).text()) == join_lines(old(self).text()) + text@,
            marks_drifted(
                old(self).marks@,
                final(self).marks@,
                last_pos(old(self).text()),
                last_pos(old(self).text()),
                split_lines(text@),
            ),
            final(self).next_mark_id == old(self).next_mark_id,
    {
        let ghost t0 = self.text();
        let mut p = self.max_pos();
        if p.col > 0 {
            p = p.prev_col();
        }
        let r = self.append_at_position(&p, text);
        proof {
            let lp = last_pos(t0);
            assert(append_target(t0, p) == lp);
            let ins = split_lines(text@);
            crate::text::lemma_split_lines_wf(text@);
            crate::text::lemma_splice_content(t0, lp, lp, ins);
            crate::text::lemma_split_then_join(text@);
            assert(t0.take(lp.row as int).push(t0[lp.row as int].take(lp.col as int)) =~~= t0);
            assert(seq![t0[lp.row as int].skip(lp.col as int)] + t0.skip(lp.row + 1) =~~= seq![
                Seq::<char>::empty(),
            ]);
            assert(join_lines(seq![Seq::<char>::empty()]) == Seq::<char>::empty());
            assert(join_lines(final(self).text()) =~= join_lines(t0) + text@);
        }
        r
    }

    /// Inserts `text` at the very start of the buffer; the content grows
    /// by exactly `text` on the left.
    pub fn prepend(&mut self, text: &str) -> (r: Result<(), BufferError>)
        requires
            old(self).wf(),
        ensures
            final(self).wf(),
            r is Ok,
            final(self).text() == splice_lines(
                old(self).text(),
                Position { row: 0, col: 0 },
                Position { row: 0, col: 0 },
                split_lines(text@),
            ),
            join_lines(final(self).text()) == text@ + join_lines(old(self).text()),
            marks_drifted(
                old(self).marks@,
                final(self).marks@,
                Position { row: 0, col: 0 },
                Position { row: 0, col: 0 },
                split_lines(text@),
            ),
            final(self).next_mark_id == old(self).next_mark_id,
    {
        let ghost t0 = self.text();
        let o = Position { row: 0, col: 0 };
        let r = self.prepend_at_position(&o, text);
        proof {
            let ins = split_lines(text@);
            crate::text::lemma_split_lines_wf(text@);
            crate::text::lemma_splice_content(t0, o, o, ins);
            crate::text::lemma_split_then_join(text@);
            assert(t0.take(0).push(t0[0].take(0)) =~~= seq![Seq::<char>::empty()]);
            assert(join_lines(seq![Seq::<char>::empty()]) == Seq::<char>::empty());
            assert(seq![t0[0].skip(0)] + t0.skip(1) =~~= t0);
            assert(join_lines(final(self).text()) =~= text@ + join_lines(t0));
        }
        r
    }
}

} // verus!
