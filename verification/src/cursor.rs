//! The cursor capability: a single tracked position with the empty-line
//! convention, and the editing operations defined relative to it.

use vstd::prelude::*;

use crate::buffer::{append_target, validate_error, TextBuffer};
use crate::error::BufferError;
use crate::mark::marks_drifted;
use crate::position::Position;
use crate::text::{pos_valid, split_lines, splice_lines};

verus! {

/// Read access to a cursor, as a capability any cursor-keeping store can
/// offer.
pub trait CursorReadBuffer {
    /// The cursor the implementation maintains.
    spec fn cursor_view(&self) -> Position;

    /// The implementation's own validity.
    spec fn cursor_inv(&self) -> bool;

    /// The current cursor.
    fn get_cursor(&self) -> (r: Position)
        requires
            self.cursor_inv(),
        ensures
            r == self.cursor_view(),
    ;
}

/// Write access to a cursor: repositioning within the store's bounds.
pub trait CursorWriteBuffer: CursorReadBuffer {
    /// Moves the cursor; an out-of-bounds position is refused and leaves
    /// it where it was.
    fn set_cursor(&mut self, position: &Position) -> (r: Result<(), BufferError>)
        requires
            old(self).cursor_inv(),
        ensures
            final(self).cursor_inv(),
            r is Ok ==> final(self).cursor_view() == *position,
            r matches Err(_) ==> final(self).cursor_view() == old(self).cursor_view(),
    ;
}

impl CursorReadBuffer for TextBuffer {
    open spec fn cursor_view(&self) -> Position {
        self.cursor
    }

    open spec fn cursor_inv(&self) -> bool {
        self.wf()
    }

    fn get_cursor(&self) -> (r: Position) {
        TextBuffer::get_cursor(self)
    }
}

impl CursorWriteBuffer for TextBuffer {
    fn set_cursor(&mut self, position: &Position) -> (r: Result<(), BufferError>) {
        TextBuffer::set_cursor(self, position)
    }
}

impl TextBuffer {
    /// The cursor. On an empty line the column is 0, whatever was stored.
    pub fn get_cursor(&self) -> (r: Position)
        requires
            self.wf(),
        ensures
            r == self.cursor_pos(),
            self.text()[r.row as int].len() == 0 ==> r.col == 0,
    {
        let c = self.cursor;
        if self.lines[c.row].unicode_len() == 0 {
            Position { row: c.row, col: 0 }
        } else {
            c
        }
    }

    /// Moves the cursor to `position`, which must validate. Nothing else
    /// changes.
    pub fn set_cursor(&mut self, position: &Position) -> (r: Result<(), BufferError>)
        requires
            old(self).wf(),
        ensures
            final(self).wf(),
            r is Ok <==> pos_valid(old(self).text(), *position),
            !pos_valid(old(self).text(), *position) ==> *final(self) == *old(self) && (r matches Err(
                e,
            ) && e == validate_error(old(self).text(), *position)),
            r is Ok ==> final(self).cursor == *position,
            final(self).text() == old(self).text(),
            final(self).marks@ == old(self).marks@,
            final(self).next_mark_id == old(self).next_mark_id,
    {
        if let Err(e) = self.validate_pos(position) {
            return Err(e);
        }
        self.cursor = *position;
        Ok(())
    }

    /// Inserts `text` after the character under the cursor, as
    /// [`TextBuffer::append_at_position`] does at the cursor's position.
    pub fn append_at_cursor(&mut self, text: &str) -> (r: Result<(), BufferError>)
        requires
            old(self).wf(),
        ensures
            final(self).wf(),
            r is Ok,
            final(self).text() == splice_lines(
                old(self).text(),
                append_target(old(self).text(), old(self).cursor_pos()),
                append_target(old(self).text(), old(self).cursor_pos()),
                split_lines(text@),
            ),
            marks_drifted(
                old(self).marks@,
                final(self).marks@,
                append_target(old(self).text(), old(self).cursor_pos()),
                append_target(old(self).text(), old(self).cursor_pos()),
                split_lines(text@),
            ),
            final(self).next_mark_id == old(self).next_mark_id,
    {
        let pos = self.get_cursor();
        self.append_at_position(&pos, text)
    }

    /// Inserts `text` at the cursor's position itself.
    pub fn prepend_at_cursor(&mut self, text: &str) -> (r: Result<(), BufferError>)
        requires
            old(self).wf(),
        ensures
            final(self).wf(),
            r is Ok,
            final(self).text() == splice_lines(
                old(self).text(),
                old(self).cursor_pos(),
                old(self).cursor_pos(),
                split_lines(text@),
            ),
            marks_drifted(
                old(self).marks@,
                final(self).marks@,
                old(self).cursor_pos(),
                old(self).cursor_pos(),
                split_lines(text@),
            ),
            final(self).next_mark_id == old(self).next_mark_id,
    {
        let pos = self.get_cursor();
        self.prepend_at_position(&pos, text)
    }

    /// Types `text` at the cursor: the text lands after the character
    /// under the cursor, and the cursor comes to rest on the last
    /// character typed (not after it). Empty text is a no-op.
    pub fn type_text(&mut self, text: &str) -> (r: Result<(), BufferError>)
        requires
            old(self).wf(),
        ensures
            final(self).wf(),
            r is Ok,
            text@.len() == 0 ==> *final(self) == *old(self),
            text@.len() > 0 ==> ({
                let q = append_target(old(self).text(), old(self).cursor_pos());
                let ins = split_lines(text@);
                let dr = ins.len() - 1;
                let dc = ins.last().len() as int;
                &&& final(self).text() == splice_lines(old(self).text(), q, q, ins)
                &&& marks_drifted(old(self).marks@, final(self).marks@, q, q, ins)
                &&& final(self).cursor.row as int == q.row + dr
                &&& final(self).cursor.col as int == (if dr == 0 {
                    q.col + dc - 1
                } else if dc == 0 {
                    0int
                } else {
                    dc - 1
                })
            }),
            final(self).next_mark_id == old(self).next_mark_id,
    {
        let n = text.unicode_len();
        if n == 0 {
            return Ok(());
        }
        let ghost t0 = self.text();
        let pos = self.get_cursor();
        let d = Position::max_text_pos(text);
        let next_is_inside = pos.row < self.lines.len() && pos.col
            < self.lines[pos.row].unicode_len();
        let q = if next_is_inside {
            Position { row: pos.row, col: pos.col + 1 }
        } else {
            pos
        };
        proof {
            assert(q == append_target(t0, pos));
            crate::text::lemma_split_lines_wf(text@);
            crate::text::lemma_splice_wf(t0, q, q, split_lines(text@));
        }
        let rc = self.prepend_at_position(&q, text);
        proof {
            assert(rc is Ok);
        }
        // Rest the cursor on the last character typed: the end of the
        // inserted text, one column back.
        let target: Position;
        if d.row == 0 {
            // Measured only to bound the column sum below.
            let _line_len = self.lines[q.row].unicode_len();
            proof {
                assert(self.text()[q.row as int].len() >= q.col + d.col);
                crate::text::lemma_split_then_join(text@);
                assert(d.col >= 1);
            }
            target = Position { row: q.row, col: q.col + d.col - 1 };
        } else {
            let total = self.lines.len();
            proof {
                assert(q.row + d.row < self.text().len());
            }
            let row = q.row + d.row;
            let col = if d.col == 0 {
                0
            } else {
                d.col - 1
            };
            target = Position { row, col };
        }
        let rs = self.set_cursor(&target);
        proof {
            assert(rs is Ok);
        }
        Ok(())
    }
}

} // verus!
