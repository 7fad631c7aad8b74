//! Regions: mark-delimited views of a parent buffer.
//!
//! A region is a pair of marks on a parent buffer — a left-leaning start
//! and a right-leaning end — and nothing more: it stores no text. Its
//! operations translate region coordinates to parent coordinates, read
//! through to the parent with the boundary lines trimmed, and write by
//! splicing the parent. The gravity discipline keeps the start at or
//! before the end under arbitrary edits, so a region survives any
//! interleaving of its own writes with direct writes to the parent.

use vstd::prelude::*;

use crate::buffer::TextBuffer;
use crate::error::BufferError;
use crate::mark::{has_mark, mark_index, Gravity, MarkId};
use crate::position::{pos_le, Position};
use crate::text::{join_lines, pos_valid};

verus! {

/// A mark-bounded view of a parent buffer.
#[derive(Debug, Clone, Copy, PartialEq, Eq, Structural)]
pub struct BufferRegion {
    pub start_id: MarkId,
    pub end_id: MarkId,
}

/// The region's start position in `b`, read off its mark table.
pub open spec fn start_of(r: BufferRegion, b: TextBuffer) -> Position {
    b.marks@[mark_index(b.marks@, r.start_id)].pos
}

/// The region's end position in `b`.
pub open spec fn end_of(r: BufferRegion, b: TextBuffer) -> Position {
    b.marks@[mark_index(b.marks@, r.end_id)].pos
}

/// A region in good standing on `b`: both boundary marks alive, leaning
/// outward (start left, end right), start at or before end.
pub open spec fn region_wf(r: BufferRegion, b: TextBuffer) -> bool {
    &&& has_mark(b.marks@, r.start_id)
    &&& has_mark(b.marks@, r.end_id)
    &&& r.start_id != r.end_id
    &&& b.marks@[mark_index(b.marks@, r.start_id)].gravity == Gravity::Left
    &&& b.marks@[mark_index(b.marks@, r.end_id)].gravity == Gravity::Right
    &&& pos_le(start_of(r, b), end_of(r, b))
}

/// Region coordinates to parent coordinates, for a region starting at
/// `s`: rows shift down by `s.row`; only row 0 shares `s`'s line and has
/// its columns shifted by `s.col`.
pub open spec fn to_parent(s: Position, p: Position) -> Position {
    Position {
        row: (s.row + p.row) as usize,
        col: (if p.row == 0 {
            s.col + p.col
        } else {
            p.col as int
        }) as usize,
    }
}

/// Parent coordinates back to region coordinates; partial inverse of
/// [`to_parent`], meaningful for positions at or after `s`.
pub open spec fn to_region(s: Position, q: Position) -> Position {
    Position {
        row: (q.row - s.row) as usize,
        col: (if q.row == s.row {
            q.col - s.col
        } else {
            q.col as int
        }) as usize,
    }
}

/// What a region from `s` to `e` reads as: the parent lines from `s.row`
/// through `e.row`, the last truncated to `e.col` and the first shorn of
/// its first `s.col` code units — in that order, so that a single-line
/// region reads `parent_line[s.col .. e.col]`.
pub open spec fn region_lines(ls: Seq<Seq<char>>, s: Position, e: Position) -> Seq<Seq<char>> {
    let rows = ls.subrange(s.row as int, e.row + 1);
    let trimmed = rows.update(rows.len() - 1, rows.last().take(e.col as int));
    trimmed.update(0, trimmed[0].skip(s.col as int))
}

/// Projecting a region position into the parent and back returns it.
pub proof fn law_region_projection_there(s: Position, p: Position)
    requires
        s.row + p.row <= usize::MAX,
        s.col + p.col <= usize::MAX,
    ensures
        to_region(s, to_parent(s, p)) == p,
{
}

/// Projecting a parent position at or after the region's start into the
/// region and back returns it.
pub proof fn law_region_projection_back(s: Position, q: Position)
    requires
        pos_le(s, q),
    ensures
        to_parent(s, to_region(s, q)) == q,
{
}

impl BufferRegion {
    /// Fetches the region's boundary positions from the parent's mark
    /// table, refusing a region whose marks are gone or inverted.
    fn bounds(&self, parent: &TextBuffer) -> (r: Result<(Position, Position), BufferError>)
        requires
            parent.wf(),
        ensures
            r matches Ok(se) ==> has_mark(parent.marks@, self.start_id) && has_mark(
                parent.marks@,
                self.end_id,
            ) && se.0 == start_of(*self, *parent) && se.1 == end_of(*self, *parent) && pos_le(
                se.0,
                se.1,
            ),
            r is Ok <==> has_mark(parent.marks@, self.start_id) && has_mark(
                parent.marks@,
                self.end_id,
            ) && pos_le(start_of(*self, *parent), end_of(*self, *parent)),
            !has_mark(parent.marks@, self.start_id) || !has_mark(parent.marks@, self.end_id)
                ==> (r matches Err(e) && e == BufferError::MarkDestroyed),
            has_mark(parent.marks@, self.start_id) && has_mark(parent.marks@, self.end_id)
                && !pos_le(start_of(*self, *parent), end_of(*self, *parent)) ==> (r matches Err(e)
                && e is Custom),
    {
        let s = match parent.get_mark_position(self.start_id) {
            Ok(p) => p,
            Err(e) => {
                return Err(e);
            },
        };
        let e = match parent.get_mark_position(self.end_id) {
            Ok(p) => p,
            Err(er) => {
                return Err(er);
            },
        };
        if !s.le(&e) {
            return Err(BufferError::Custom("region bounds are inverted".to_owned()));
        }
        Ok((s, e))
    }

    /// How many lines the region spans: both boundary rows count, so a
    /// region never has fewer than one line.
    pub fn line_count(&self, parent: &TextBuffer) -> (r: Result<usize, BufferError>)
        requires
            parent.wf(),
        ensures
            r is Ok <==> has_mark(parent.marks@, self.start_id) && has_mark(
                parent.marks@,
                self.end_id,
            ) && pos_le(start_of(*self, *parent), end_of(*self, *parent)),
            r matches Ok(n) ==> pos_le(start_of(*self, *parent), end_of(*self, *parent)) && n
                == end_of(*self, *parent).row - start_of(*self, *parent).row + 1 && n as int
                == region_lines(
                parent.text(),
                start_of(*self, *parent),
                end_of(*self, *parent),
            ).len(),
            !has_mark(parent.marks@, self.start_id) || !has_mark(parent.marks@, self.end_id)
                ==> (r matches Err(e) && e == BufferError::MarkDestroyed),
            has_mark(parent.marks@, self.start_id) && has_mark(parent.marks@, self.end_id)
                && !pos_le(start_of(*self, *parent), end_of(*self, *parent)) ==> (r matches Err(e)
                && e is Custom),
    {
        let (s, e) = match self.bounds(parent) {
            Ok(se) => se,
            Err(er) => {
                return Err(er);
            },
        };
        proof {
            assert(pos_valid(parent.text(), end_of(*self, *parent)) && pos_valid(
                parent.text(),
                start_of(*self, *parent),
            )) by {
                crate::mark::lemma_mark_index(parent.marks@, self.start_id);
                crate::mark::lemma_mark_index(parent.marks@, self.end_id);
            }
        }
        let total = parent.line_count();
        proof {
            assert(e.row < total);
        }
        Ok(e.row - s.row + 1)
    }

    /// The length of region line `row`, against the region's current
    /// bounds `s` and `e` on `parent`.
    fn line_len(&self, parent: &TextBuffer, s: Position, e: Position, row: usize) -> (n: usize)
        requires
            parent.wf(),
            pos_le(s, e),
            pos_valid(parent.text(), s),
            pos_valid(parent.text(), e),
            row <= e.row - s.row,
        ensures
            n as int == region_lines(parent.text(), s, e)[row as int].len(),
    {
        let last = e.row - s.row;
        if last == 0 {
            e.col - s.col
        } else if row == 0 {
            let full = self.parent_line_len(parent, s.row);
            full - s.col
        } else if row == last {
            e.col
        } else {
            self.parent_line_len(parent, s.row + row)
        }
    }

    /// The length of parent line `row`.
    fn parent_line_len(&self, parent: &TextBuffer, row: usize) -> (n: usize)
        requires
            parent.wf(),
            row < parent.text().len(),
        ensures
            n as int == parent.text()[row as int].len(),
    {
        match parent.max_row_pos(row) {
            Ok(p) => p.col,
            Err(_) => 0,  // unreachable: the row is in bounds
        }
    }

    /// Checks `p` against the region's own bounds, row before column.
    pub fn validate_pos(&self, parent: &TextBuffer, p: &Position) -> (r: Result<(), BufferError>)
        requires
            parent.wf(),
        ensures
            ({
                let s = start_of(*self, *parent);
                let e = end_of(*self, *parent);
                let rl = region_lines(parent.text(), s, e);
                &&& (r matches Ok(u) ==> region_wf_marks(*self, *parent) && pos_le(s, e)
                    && pos_valid(rl, *p))
                &&& (region_wf_marks(*self, *parent) && pos_le(s, e) ==> {
                    &&& (r is Ok <==> pos_valid(rl, *p))
                    &&& (!pos_valid(rl, *p) ==> (r matches Err(er) && er
                        == crate::buffer::validate_error(rl, *p)))
                })
            }),
            !has_mark(parent.marks@, self.start_id) || !has_mark(parent.marks@, self.end_id)
                ==> (r matches Err(e) && e == BufferError::MarkDestroyed),
            has_mark(parent.marks@, self.start_id) && has_mark(parent.marks@, self.end_id)
                && !pos_le(start_of(*self, *parent), end_of(*self, *parent)) ==> (r matches Err(e)
                && e is Custom),
    {
        let (s, e) = match self.bounds(parent) {
            Ok(se) => se,
            Err(er) => {
                return Err(er);
            },
        };
        proof {
            lemma_region_bounds_valid(*self, *parent);
        }
        let last = e.row - s.row;
        if p.row > last {
            return Err(
                BufferError::RowOutOfBounds { row: p.row as isize, limit: last as isize },
            );
        }
        let len = self.line_len(parent, s, e, p.row);
        if p.col > len {
            return Err(BufferError::ColOutOfBounds { col: p.col as isize, limit: len as isize });
        }
        Ok(())
    }
}

impl BufferRegion {
    /// The region lines with rows in `[from, to)`: parent lines with the
    /// region's boundary trims applied where the range touches them, or
    /// a row bounds error when the range reaches past the region.
    pub fn get_lines(&self, parent: &TextBuffer, from: usize, to: usize) -> (r: Result<
        Vec<String>,
        BufferError,
    >)
        requires
            parent.wf(),
            from <= to,
        ensures
            ({
                let s = start_of(*self, *parent);
                let e = end_of(*self, *parent);
                let rl = region_lines(parent.text(), s, e);
                &&& (r matches Ok(v) ==> region_wf_marks(*self, *parent) && pos_le(s, e) && to
                    <= rl.len() && v.deep_view() == rl.subrange(from as int, to as int))
                &&& (region_wf_marks(*self, *parent) && pos_le(s, e) && to > rl.len() ==> (
                r matches Err(er) && er == (BufferError::RowOutOfBounds {
                    row: (to - 1) as isize,
                    limit: (rl.len() - 1) as isize,
                })))
                &&& (region_wf_marks(*self, *parent) && pos_le(s, e) && to <= rl.len()
                    ==> r is Ok)
            }),
            !has_mark(parent.marks@, self.start_id) || !has_mark(parent.marks@, self.end_id)
                ==> (r matches Err(e) && e == BufferError::MarkDestroyed),
            has_mark(parent.marks@, self.start_id) && has_mark(parent.marks@, self.end_id)
                && !pos_le(start_of(*self, *parent), end_of(*self, *parent)) ==> (r matches Err(e)
                && e is Custom),
    {
        let (s, e) = match self.bounds(parent) {
            Ok(se) => se,
            Err(er) => {
                return Err(er);
            },
        };
        proof {
            lemma_region_bounds_valid(*self, *parent);
        }
        let ghost rl = region_lines(parent.text(), s, e);
        let last = e.row - s.row;
        if to > last && to - last > 1 {
            return Err(
                BufferError::RowOutOfBounds { row: (to - 1) as isize, limit: last as isize },
            );
        }
        let total = parent.line_count();
        proof {
            assert(e.row < total);
            assert(s.row + to <= total);
        }
        let mut v = match parent.get_lines(s.row + from, s.row + to) {
            Ok(v) => v,
            Err(_) => Vec::new(),  // unreachable: the rows are inside the parent
        };
        proof {
            assert(s.row + to <= parent.text().len());
            assert(v.deep_view() =~~= parent.text().subrange(s.row + from, s.row + to as int));
            assert(v.deep_view().len() == to - from);
            assert(v@.len() == v.deep_view().len());
        }
        let ghost base = parent.text().subrange(s.row + from, s.row + to as int);
        // Trim in the documented order: truncate the last region line to
        // `e.col` first, then drop the first `s.col` units of region
        // line 0, so a one-line region reads `parent_line[s.col..e.col]`.
        if to == last + 1 && from < to {
            proof {
                assert(v@.len() == to - from);
                assert(v.deep_view()[v@.len() - 1] == parent.text()[e.row as int]);
            }
            let li = v.len() - 1;
            let trimmed = v[li].as_str().substring_char(0, e.col).to_owned();
            v.set(li, trimmed);
            proof {
                assert(v.deep_view() =~~= base.update(
                    base.len() - 1,
                    parent.text()[e.row as int].take(e.col as int),
                ));
            }
        }
        let ghost mid = v.deep_view();
        if from == 0 && from < to {
            proof {
                assert(s.col <= mid[0].len()) by {
                    if to == last + 1 && to == 1 {
                        assert(mid[0] == parent.text()[e.row as int].take(e.col as int));
                    } else {
                        assert(mid[0] == parent.text()[s.row as int]);
                    }
                }
            }
            let l0 = v[0].unicode_len();
            let trimmed = v[0].as_str().substring_char(s.col, l0).to_owned();
            v.set(0, trimmed);
            proof {
                assert(trimmed@ =~= mid[0].skip(s.col as int));
                assert(v.deep_view() =~~= mid.update(0, mid[0].skip(s.col as int)));
            }
        }
        proof {
            assert forall|j: int| 0 <= j < to - from implies v.deep_view()[j] =~= rl[from + j] by {
                let rows = parent.text().subrange(s.row as int, e.row + 1);
                assert(rows[from + j] == parent.text()[s.row + from + j]);
                assert(base[j] == parent.text()[s.row + from + j]);
            }
            assert(v.deep_view() =~~= rl.subrange(from as int, to as int));
        }
        Ok(v)
    }

    /// The region line at `row`, or a row bounds error.
    pub fn get_line(&self, parent: &TextBuffer, row: usize) -> (r: Result<String, BufferError>)
        requires
            parent.wf(),
        ensures
            ({
                let s = start_of(*self, *parent);
                let e = end_of(*self, *parent);
                let rl = region_lines(parent.text(), s, e);
                &&& (r matches Ok(l) ==> region_wf_marks(*self, *parent) && pos_le(s, e) && row
                    < rl.len() && l@ == rl[row as int])
                &&& (region_wf_marks(*self, *parent) && pos_le(s, e) && row >= rl.len() ==> (
                r matches Err(er) && er == (BufferError::RowOutOfBounds {
                    row: row as isize,
                    limit: (rl.len() - 1) as isize,
                })))
                &&& (region_wf_marks(*self, *parent) && pos_le(s, e) && row < rl.len()
                    ==> r is Ok)
            }),
            !has_mark(parent.marks@, self.start_id) || !has_mark(parent.marks@, self.end_id)
                ==> (r matches Err(e) && e == BufferError::MarkDestroyed),
            has_mark(parent.marks@, self.start_id) && has_mark(parent.marks@, self.end_id)
                && !pos_le(start_of(*self, *parent), end_of(*self, *parent)) ==> (r matches Err(e)
                && e is Custom),
    {
        let (s, e) = match self.bounds(parent) {
            Ok(se) => se,
            Err(er) => {
                return Err(er);
            },
        };
        proof {
            lemma_region_bounds_valid(*self, *parent);
        }
        let last = e.row - s.row;
        if row > last {
            return Err(
                BufferError::RowOutOfBounds { row: row as isize, limit: last as isize },
            );
        }
        let total = parent.line_count();
        proof {
            assert(e.row < total);
        }
        match self.get_lines(parent, row, row + 1) {
            Ok(v) => {
                proof {
                    assert(v@.len() == v.deep_view().len());
                    assert(v@.len() == 1);
                    assert(v.deep_view()[0] == region_lines(
                        parent.text(),
                        start_of(*self, *parent),
                        end_of(*self, *parent),
                    )[row as int]);
                }
                Ok(v[0].clone())
            },
            Err(er) => Err(er),  // unreachable: the row was checked
        }
    }

    /// Every line of the region, in order.
    pub fn get_all_lines(&self, parent: &TextBuffer) -> (r: Result<Vec<String>, BufferError>)
        requires
            parent.wf(),
        ensures
            ({
                let s = start_of(*self, *parent);
                let e = end_of(*self, *parent);
                let rl = region_lines(parent.text(), s, e);
                &&& (r matches Ok(v) ==> region_wf_marks(*self, *parent) && pos_le(s, e)
                    && v.deep_view() == rl)
                &&& (region_wf_marks(*self, *parent) && pos_le(s, e) ==> r is Ok)
            }),
            !has_mark(parent.marks@, self.start_id) || !has_mark(parent.marks@, self.end_id)
                ==> (r matches Err(e) && e == BufferError::MarkDestroyed),
            has_mark(parent.marks@, self.start_id) && has_mark(parent.marks@, self.end_id)
                && !pos_le(start_of(*self, *parent), end_of(*self, *parent)) ==> (r matches Err(e)
                && e is Custom),
    {
        let n = match self.line_count(parent) {
            Ok(n) => n,
            Err(er) => {
                return Err(er);
            },
        };
        let r = self.get_lines(parent, 0, n);
        proof {
            if r is Ok {
                let rl = region_lines(
                    parent.text(),
                    start_of(*self, *parent),
                    end_of(*self, *parent),
                );
                assert(rl.subrange(0, rl.len() as int) =~~= rl);
            }
        }
        r
    }

    /// The region serialized: its lines joined with newlines.
    pub fn get_content(&self, parent: &TextBuffer) -> (r: Result<String, BufferError>)
        requires
            parent.wf(),
        ensures
            ({
                let s = start_of(*self, *parent);
                let e = end_of(*self, *parent);
                let rl = region_lines(parent.text(), s, e);
                &&& (r matches Ok(c) ==> c@ == join_lines(rl))
                &&& (region_wf_marks(*self, *parent) && pos_le(s, e) ==> r is Ok)
            }),
            !has_mark(parent.marks@, self.start_id) || !has_mark(parent.marks@, self.end_id)
                ==> (r matches Err(e) && e == BufferError::MarkDestroyed),
            has_mark(parent.marks@, self.start_id) && has_mark(parent.marks@, self.end_id)
                && !pos_le(start_of(*self, *parent), end_of(*self, *parent)) ==> (r matches Err(e)
                && e is Custom),
    {
        let v = match self.get_all_lines(parent) {
            Ok(v) => v,
            Err(er) => {
                return Err(er);
            },
        };
        proof {
            lemma_region_bounds_valid(*self, *parent);
            assert(v@.len() == v.deep_view().len());
            assert(v@.len() >= 1);
        }
        Ok(crate::text::join_text(&v))
    }
}

impl BufferRegion {
    /// Translates a region-valid position into the parent's coordinates;
    /// an invalid one is refused against the region's bounds.
    pub fn real_position(&self, parent: &TextBuffer, pos: &Position) -> (r: Result<
        Position,
        BufferError,
    >)
        requires
            parent.wf(),
        ensures
            ({
                let s = start_of(*self, *parent);
                let e = end_of(*self, *parent);
                let rl = region_lines(parent.text(), s, e);
                &&& (r matches Ok(q) ==> region_wf_marks(*self, *parent) && pos_le(s, e)
                    && pos_valid(rl, *pos) && q == to_parent(s, *pos) && q.row as int == s.row
                    + pos.row && q.col as int == (if pos.row == 0 {
                    s.col + pos.col
                } else {
                    pos.col as int
                }) && pos_valid(parent.text(), q) && pos_le(s, q))
                &&& (region_wf_marks(*self, *parent) && pos_le(s, e) ==> {
                    &&& (r is Ok <==> pos_valid(rl, *pos))
                    &&& (!pos_valid(rl, *pos) ==> (r matches Err(er) && er
                        == crate::buffer::validate_error(rl, *pos)))
                })
            }),
            !has_mark(parent.marks@, self.start_id) || !has_mark(parent.marks@, self.end_id)
                ==> (r matches Err(e) && e == BufferError::MarkDestroyed),
            has_mark(parent.marks@, self.start_id) && has_mark(parent.marks@, self.end_id)
                && !pos_le(start_of(*self, *parent), end_of(*self, *parent)) ==> (r matches Err(e)
                && e is Custom),
    {
        if let Err(e) = self.validate_pos(parent, pos) {
            return Err(e);
        }
        let (s, e) = match self.bounds(parent) {
            Ok(se) => se,
            Err(er) => {
                return Err(er);  // unreachable: validation fetched the same bounds
            },
        };
        proof {
            lemma_region_bounds_valid(*self, *parent);
        }
        let ghost rl = region_lines(parent.text(), s, e);
        let total = parent.line_count();
        proof {
            assert(pos.row <= e.row - s.row);
            assert(e.row < total);
        }
        let row = s.row + pos.row;
        let col: usize;
        if pos.row == 0 {
            // Measured only to bound the column sum below.
            let full = self.parent_line_len(parent, s.row);
            proof {
                assert(pos.col <= rl[0].len());
                assert(s.col + pos.col <= full);
            }
            col = s.col + pos.col;
        } else {
            col = pos.col;
            proof {
                assert(rl[pos.row as int].len() <= parent.text()[row as int].len());
            }
        }
        Ok(Position { row, col })
    }

    /// Translates a parent position into the region's coordinates. A
    /// position before the region's start is refused with the negative
    /// coordinate carried for diagnosis; one beyond its end is refused
    /// against the region's bounds.
    pub fn region_position(&self, parent: &TextBuffer, pos: &Position) -> (r: Result<
        Position,
        BufferError,
    >)
        requires
            parent.wf(),
        ensures
            ({
                let s = start_of(*self, *parent);
                let e = end_of(*self, *parent);
                let rl = region_lines(parent.text(), s, e);
                &&& (r matches Ok(p) ==> region_wf_marks(*self, *parent) && pos_le(s, e) && pos_le(
                    s,
                    *pos,
                ) && p == to_region(s, *pos) && pos_valid(rl, p))
                &&& (region_wf_marks(*self, *parent) && pos_le(s, e) ==> {
                    &&& (pos.row < s.row ==> (r matches Err(er) && er matches
                        BufferError::RowOutOfBounds { row: rr, limit: ll } && ll == 0 && rr < 0 && (
                    s.row - pos.row <= isize::MAX ==> rr as int == pos.row - s.row)))
                    &&& (pos.row == s.row && pos.col < s.col ==> (r matches Err(er) && er matches
                        BufferError::ColOutOfBounds { col: cc, limit: ll } && ll == 0 && cc < 0 && (
                    s.col - pos.col <= isize::MAX ==> cc as int == pos.col - s.col)))
                    &&& (pos_le(s, *pos) ==> {
                        let p = to_region(s, *pos);
                        &&& (r is Ok <==> pos_valid(rl, p))
                        &&& (!pos_valid(rl, p) ==> (r matches Err(er) && er
                            == crate::buffer::validate_error(rl, p)))
                    })
                })
            }),
            !has_mark(parent.marks@, self.start_id) || !has_mark(parent.marks@, self.end_id)
                ==> (r matches Err(e) && e == BufferError::MarkDestroyed),
            has_mark(parent.marks@, self.start_id) && has_mark(parent.marks@, self.end_id)
                && !pos_le(start_of(*self, *parent), end_of(*self, *parent)) ==> (r matches Err(e)
                && e is Custom),
    {
        let (s, e) = match self.bounds(parent) {
            Ok(se) => se,
            Err(er) => {
                return Err(er);
            },
        };
        if pos.row < s.row {
            let diff = s.row - pos.row;
            let rr: isize = if diff <= isize::MAX as usize {
                -(diff as isize)
            } else {
                isize::MIN
            };
            return Err(BufferError::RowOutOfBounds { row: rr, limit: 0 });
        }
        let row = pos.row - s.row;
        let col: usize;
        if pos.row == s.row {
            if pos.col < s.col {
                let diff = s.col - pos.col;
                let cc: isize = if diff <= isize::MAX as usize {
                    -(diff as isize)
                } else {
                    isize::MIN
                };
                return Err(BufferError::ColOutOfBounds { col: cc, limit: 0 });
            }
            col = pos.col - s.col;
        } else {
            col = pos.col;
        }
        let p = Position { row, col };
        if let Err(er) = self.validate_pos(parent, &p) {
            return Err(er);
        }
        Ok(p)
    }
}

/// Both boundary marks of `r` are alive in `b` and distinct.
pub open spec fn region_wf_marks(r: BufferRegion, b: TextBuffer) -> bool {
    &&& has_mark(b.marks@, r.start_id)
    &&& has_mark(b.marks@, r.end_id)
}

impl BufferRegion {
    /// Replaces the region text between `start` and `end` (region
    /// coordinates, half-open) with `text`: both endpoints are checked
    /// against the region, translated, and the parent is spliced. The
    /// region itself survives the edit in good standing.
    pub fn set_text(&self, parent: &mut TextBuffer, start: &Position, end: &Position, text: &str)
        -> (r: Result<(), BufferError>)
        requires
            old(parent).wf(),
            pos_le(*start, *end),
        ensures
            final(parent).wf(),
            ({
                let s = start_of(*self, *old(parent));
                let e = end_of(*self, *old(parent));
                let rl = region_lines(old(parent).text(), s, e);
                &&& (region_wf_marks(*self, *old(parent)) && pos_le(s, e) ==> {
                    &&& (r is Ok <==> pos_valid(rl, *start) && pos_valid(rl, *end))
                    &&& (!pos_valid(rl, *start) ==> (r matches Err(er) && er
                        == crate::buffer::validate_error(rl, *start)))
                    &&& (pos_valid(rl, *start) && !pos_valid(rl, *end) ==> (r matches Err(er) && er
                        == crate::buffer::validate_error(rl, *end)))
                })
                &&& (r is Ok ==> final(parent).text() == crate::text::splice_lines(
                    old(parent).text(),
                    to_parent(s, *start),
                    to_parent(s, *end),
                    crate::text::split_lines(text@),
                ) && crate::mark::marks_drifted(
                    old(parent).marks@,
                    final(parent).marks@,
                    to_parent(s, *start),
                    to_parent(s, *end),
                    crate::text::split_lines(text@),
                ))
                &&& (r is Ok && region_wf(*self, *old(parent)) ==> region_wf(
                    *self,
                    *final(parent),
                ))
            }),
            !has_mark(old(parent).marks@, self.start_id) || !has_mark(
                old(parent).marks@,
                self.end_id,
            ) ==> *final(parent) == *old(parent) && (r matches Err(e) && e
                == BufferError::MarkDestroyed),
            region_wf_marks(*self, *old(parent)) && !pos_le(
                start_of(*self, *old(parent)),
                end_of(*self, *old(parent)),
            ) ==> *final(parent) == *old(parent) && (r matches Err(e) && e is Custom),
            r matches Err(_) ==> *final(parent) == *old(parent),
            final(parent).next_mark_id == old(parent).next_mark_id,
    {
        if let Err(e) = self.validate_pos(parent, start) {
            return Err(e);
        }
        if let Err(e) = self.validate_pos(parent, end) {
            return Err(e);
        }
        let pa = match self.real_position(parent, start) {
            Ok(p) => p,
            Err(e) => {
                return Err(e);  // unreachable: just validated
            },
        };
        let pb = match self.real_position(parent, end) {
            Ok(p) => p,
            Err(e) => {
                return Err(e);  // unreachable: just validated
            },
        };
        let ghost s = start_of(*self, *parent);
        proof {
            assert(pos_le(pa, pb));
        }
        let r = parent.set_text(&pa, &pb, text);
        proof {
            assert(r is Ok);
            crate::text::lemma_split_lines_wf(text@);
            if region_wf(*self, *old(parent)) {
                law_region_survives_edit(
                    *self,
                    *old(parent),
                    *parent,
                    pa,
                    pb,
                    crate::text::split_lines(text@),
                );
            }
        }
        r
    }
}

impl BufferRegion {
    /// Inserts `text` at region position `position`.
    pub fn prepend_at_position(
        &self,
        parent: &mut TextBuffer,
        position: &Position,
        text: &str,
    ) -> (r: Result<(), BufferError>)
        requires
            old(parent).wf(),
        ensures
            final(parent).wf(),
            ({
                let s = start_of(*self, *old(parent));
                let e = end_of(*self, *old(parent));
                let rl = region_lines(old(parent).text(), s, e);
                &&& (region_wf_marks(*self, *old(parent)) && pos_le(s, e) ==> {
                    &&& (r is Ok <==> pos_valid(rl, *position))
                    &&& (!pos_valid(rl, *position) ==> (r matches Err(er) && er
                        == crate::buffer::validate_error(rl, *position)))
                })
                &&& (r is Ok ==> final(parent).text() == crate::text::splice_lines(
                    old(parent).text(),
                    to_parent(s, *position),
                    to_parent(s, *position),
                    crate::text::split_lines(text@),
                ) && crate::mark::marks_drifted(
                    old(parent).marks@,
                    final(parent).marks@,
                    to_parent(s, *position),
                    to_parent(s, *position),
                    crate::text::split_lines(text@),
                ))
                &&& (r is Ok && region_wf(*self, *old(parent)) ==> region_wf(
                    *self,
                    *final(parent),
                ))
            }),
            !has_mark(old(parent).marks@, self.start_id) || !has_mark(
                old(parent).marks@,
                self.end_id,
            ) ==> (r matches Err(e) && e == BufferError::MarkDestroyed),
            region_wf_marks(*self, *old(parent)) && !pos_le(
                start_of(*self, *old(parent)),
                end_of(*self, *old(parent)),
            ) ==> (r matches Err(e) && e is Custom),
            r matches Err(_) ==> *final(parent) == *old(parent),
            final(parent).next_mark_id == old(parent).next_mark_id,
    {
        self.set_text(parent, position, position, text)
    }

    /// Inserts `text` after the character at region position `position`,
    /// with the same degeneration at line ends as the buffer's own
    /// [`TextBuffer::append_at_position`].
    pub fn append_at_position(
        &self,
        parent: &mut TextBuffer,
        position: &Position,
        text: &str,
    ) -> (r: Result<(), BufferError>)
        requires
            old(parent).wf(),
        ensures
            final(parent).wf(),
            ({
                let s = start_of(*self, *old(parent));
                let e = end_of(*self, *old(parent));
                let rl = region_lines(old(parent).text(), s, e);
                let q = crate::buffer::append_target(rl, *position);
                &&& (region_wf_marks(*self, *old(parent)) && pos_le(s, e) ==> {
                    &&& (r is Ok <==> pos_valid(rl, *position))
                    &&& (!pos_valid(rl, *position) ==> (r matches Err(er) && er
                        == crate::buffer::validate_error(rl, *position)))
                })
                &&& (r is Ok ==> final(parent).text() == crate::text::splice_lines(
                    old(parent).text(),
                    to_parent(s, q),
                    to_parent(s, q),
                    crate::text::split_lines(text@),
                ) && crate::mark::marks_drifted(
                    old(parent).marks@,
                    final(parent).marks@,
                    to_parent(s, q),
                    to_parent(s, q),
                    crate::text::split_lines(text@),
                ))
                &&& (r is Ok && region_wf(*self, *old(parent)) ==> region_wf(
                    *self,
                    *final(parent),
                ))
            }),
            !has_mark(old(parent).marks@, self.start_id) || !has_mark(
                old(parent).marks@,
                self.end_id,
            ) ==> (r matches Err(e) && e == BufferError::MarkDestroyed),
            region_wf_marks(*self, *old(parent)) && !pos_le(
                start_of(*self, *old(parent)),
                end_of(*self, *old(parent)),
            ) ==> (r matches Err(e) && e is Custom),
            r matches Err(_) ==> *final(parent) == *old(parent),
            final(parent).next_mark_id == old(parent).next_mark_id,
    {
        let (s, e) = match self.bounds(parent) {
            Ok(se) => se,
            Err(er) => {
                return Err(er);
            },
        };
        proof {
            lemma_region_bounds_valid(*self, *parent);
        }
        let last = e.row - s.row;
        let next_is_inside = position.row <= last && position.col < self.line_len(
            parent,
            s,
            e,
            position.row,
        );
        let q = if next_is_inside {
            Position { row: position.row, col: position.col + 1 }
        } else {
            *position
        };
        self.set_text(parent, &q, &q, text)
    }

    /// Replaces the whole extent of the region — from its start mark to
    /// its end mark — with `text`.
    pub fn set_content(&self, parent: &mut TextBuffer, text: &str) -> (r: Result<
        (),
        BufferError,
    >)
        requires
            old(parent).wf(),
        ensures
            final(parent).wf(),
            ({
                let s = start_of(*self, *old(parent));
                let e = end_of(*self, *old(parent));
                &&& (region_wf_marks(*self, *old(parent)) && pos_le(s, e) ==> r is Ok)
                &&& (r is Ok ==> final(parent).text() == crate::text::splice_lines(
                    old(parent).text(),
                    s,
                    e,
                    crate::text::split_lines(text@),
                ) && crate::mark::marks_drifted(
                    old(parent).marks@,
                    final(parent).marks@,
                    s,
                    e,
                    crate::text::split_lines(text@),
                ))
                &&& (r is Ok && region_wf(*self, *old(parent)) ==> region_wf(
                    *self,
                    *final(parent),
                ))
            }),
            !has_mark(old(parent).marks@, self.start_id) || !has_mark(
                old(parent).marks@,
                self.end_id,
            ) ==> (r matches Err(e) && e == BufferError::MarkDestroyed),
            region_wf_marks(*self, *old(parent)) && !pos_le(
                start_of(*self, *old(parent)),
                end_of(*self, *old(parent)),
            ) ==> (r matches Err(e) && e is Custom),
            r matches Err(_) ==> *final(parent) == *old(parent),
            final(parent).next_mark_id == old(parent).next_mark_id,
    {
        let (s, e) = match self.bounds(parent) {
            Ok(se) => se,
            Err(er) => {
                return Err(er);
            },
        };
        proof {
            lemma_region_bounds_valid(*self, *parent);
        }
        let last = e.row - s.row;
        let ll = self.line_len(parent, s, e, last);
        self.set_text(parent, &Position { row: 0, col: 0 }, &Position { row: last, col: ll }, text)
    }

    /// Replaces region row `row` in full.
    pub fn set_line(&self, parent: &mut TextBuffer, row: usize, line: &str) -> (r: Result<
        (),
        BufferError,
    >)
        requires
            old(parent).wf(),
        ensures
            final(parent).wf(),
            ({
                let s = start_of(*self, *old(parent));
                let e = end_of(*self, *old(parent));
                let rl = region_lines(old(parent).text(), s, e);
                &&& (region_wf_marks(*self, *old(parent)) && pos_le(s, e) ==> {
                    &&& (r is Ok <==> row < rl.len())
                    &&& (row >= rl.len() ==> (r matches Err(er) && er
                        == (BufferError::RowOutOfBounds {
                        row: row as isize,
                        limit: (rl.len() - 1) as isize,
                    })))
                })
                &&& (r is Ok ==> final(parent).text() == crate::text::splice_lines(
                    old(parent).text(),
                    to_parent(s, Position { row, col: 0 }),
                    to_parent(
                        s,
                        Position {
                            row,
                            col: region_lines(
                                old(parent).text(),
                                s,
                                e,
                            )[row as int].len() as usize,
                        },
                    ),
                    crate::text::split_lines(line@),
                ))
                &&& (r is Ok && region_wf(*self, *old(parent)) ==> region_wf(
                    *self,
                    *final(parent),
                ))
            }),
            !has_mark(old(parent).marks@, self.start_id) || !has_mark(
                old(parent).marks@,
                self.end_id,
            ) ==> (r matches Err(e) && e == BufferError::MarkDestroyed),
            region_wf_marks(*self, *old(parent)) && !pos_le(
                start_of(*self, *old(parent)),
                end_of(*self, *old(parent)),
            ) ==> (r matches Err(e) && e is Custom),
            r matches Err(_) ==> *final(parent) == *old(parent),
            final(parent).next_mark_id == old(parent).next_mark_id,
    {
        let (s, e) = match self.bounds(parent) {
            Ok(se) => se,
            Err(er) => {
                return Err(er);
            },
        };
        proof {
            lemma_region_bounds_valid(*self, *parent);
        }
        let last = e.row - s.row;
        if row > last {
            return Err(
                BufferError::RowOutOfBounds { row: row as isize, limit: last as isize },
            );
        }
        let ll = self.line_len(parent, s, e, row);
        self.set_text(parent, &Position { row, col: 0 }, &Position { row, col: ll }, line)
    }

    /// Appends `text` at the very end of the region. With the end mark's
    /// right gravity the region grows to hold exactly what was appended.
    pub fn append(&self, parent: &mut TextBuffer, text: &str) -> (r: Result<(), BufferError>)
        requires
            old(parent).wf(),
        ensures
            final(parent).wf(),
            ({
                let s = start_of(*self, *old(parent));
                let e = end_of(*self, *old(parent));
                &&& (region_wf_marks(*self, *old(parent)) && pos_le(s, e) ==> r is Ok)
                &&& (r is Ok ==> final(parent).text() == crate::text::splice_lines(
                    old(parent).text(),
                    e,
                    e,
                    crate::text::split_lines(text@),
                ) && crate::mark::marks_drifted(
                    old(parent).marks@,
                    final(parent).marks@,
                    e,
                    e,
                    crate::text::split_lines(text@),
                ))
                &&& (r is Ok && region_wf(*self, *old(parent)) ==> region_wf(
                    *self,
                    *final(parent),
                ))
            }),
            !has_mark(old(parent).marks@, self.start_id) || !has_mark(
                old(parent).marks@,
                self.end_id,
            ) ==> (r matches Err(e) && e == BufferError::MarkDestroyed),
            region_wf_marks(*self, *old(parent)) && !pos_le(
                start_of(*self, *old(parent)),
                end_of(*self, *old(parent)),
            ) ==> (r matches Err(e) && e is Custom),
            r matches Err(_) ==> *final(parent) == *old(parent),
            final(parent).next_mark_id == old(parent).next_mark_id,
    {
        let (s, e) = match self.bounds(parent) {
            Ok(se) => se,
            Err(er) => {
                return Err(er);
            },
        };
        proof {
            lemma_region_bounds_valid(*self, *parent);
        }
        let last = e.row - s.row;
        let ll = self.line_len(parent, s, e, last);
        let p = if ll > 0 {
            Position { row: last, col: ll - 1 }
        } else {
            Position { row: last, col: 0 }
        };
        let ghost rl = region_lines(parent.text(), s, e);
        proof {
            assert(crate::buffer::append_target(rl, p) == crate::buffer::last_pos(rl));
            assert(to_parent(s, crate::buffer::last_pos(rl)) == e);
        }
        self.append_at_position(parent, &p, text)
    }

    /// Inserts `text` at the region's very first position. The start
    /// mark's left gravity keeps it put, so the text lands inside the
    /// region.
    pub fn prepend(&self, parent: &mut TextBuffer, text: &str) -> (r: Result<(), BufferError>)
        requires
            old(parent).wf(),
        ensures
            final(parent).wf(),
            ({
                let s = start_of(*self, *old(parent));
                let e = end_of(*self, *old(parent));
                &&& (region_wf_marks(*self, *old(parent)) && pos_le(s, e) ==> r is Ok)
                &&& (r is Ok ==> final(parent).text() == crate::text::splice_lines(
                    old(parent).text(),
                    s,
                    s,
                    crate::text::split_lines(text@),
                ) && crate::mark::marks_drifted(
                    old(parent).marks@,
                    final(parent).marks@,
                    s,
                    s,
                    crate::text::split_lines(text@),
                ))
                &&& (r is Ok && region_wf(*self, *old(parent)) ==> region_wf(
                    *self,
                    *final(parent),
                ))
            }),
            !has_mark(old(parent).marks@, self.start_id) || !has_mark(
                old(parent).marks@,
                self.end_id,
            ) ==> (r matches Err(e) && e == BufferError::MarkDestroyed),
            region_wf_marks(*self, *old(parent)) && !pos_le(
                start_of(*self, *old(parent)),
                end_of(*self, *old(parent)),
            ) ==> (r matches Err(e) && e is Custom),
            r matches Err(_) ==> *final(parent) == *old(parent),
            final(parent).next_mark_id == old(parent).next_mark_id,
    {
        let ghost s = start_of(*self, *old(parent));
        let ghost e = end_of(*self, *old(parent));
        let r = self.prepend_at_position(parent, &Position { row: 0, col: 0 }, text);
        proof {
            if region_wf_marks(*self, *old(parent)) && pos_le(s, e) {
                lemma_region_bounds_valid(*self, *old(parent));
                assert(to_parent(s, Position { row: 0, col: 0 }) == s);
                assert(pos_valid(
                    region_lines(old(parent).text(), s, e),
                    Position { row: 0, col: 0 },
                ));
            }
        }
        r
    }
}

impl BufferRegion {
    /// Builds a region on `parent` between `start` and `end` (parent
    /// coordinates): two fresh marks, the start leaning left and the end
    /// leaning right. Both positions are checked before anything is
    /// created, so a refusal leaves the parent untouched.
    pub fn new(parent: &mut TextBuffer, start: &Position, end: &Position) -> (r: Result<
        BufferRegion,
        BufferError,
    >)
        requires
            old(parent).wf(),
        ensures
            final(parent).wf(),
            !pos_valid(old(parent).text(), *start) ==> *final(parent) == *old(parent) && (r matches
                Err(e) && e == crate::buffer::validate_error(old(parent).text(), *start)),
            pos_valid(old(parent).text(), *start) && !pos_valid(old(parent).text(), *end)
                ==> *final(parent) == *old(parent) && (r matches Err(e) && e
                == crate::buffer::validate_error(old(parent).text(), *end)),
            pos_valid(old(parent).text(), *start) && pos_valid(old(parent).text(), *end) && old(
                parent,
            ).next_mark_id >= u64::MAX - 1 ==> *final(parent) == *old(parent) && (r matches Err(e)
                && e is Custom),
            pos_valid(old(parent).text(), *start) && pos_valid(old(parent).text(), *end) && old(
                parent,
            ).next_mark_id < u64::MAX - 1 ==> (r matches Ok(reg) && {
                &&& reg.start_id == MarkId(old(parent).next_mark_id)
                &&& reg.end_id == MarkId((old(parent).next_mark_id + 1) as u64)
                &&& final(parent).marks@ == old(parent).marks@.push(
                    crate::mark::MarkEntry {
                        id: reg.start_id,
                        pos: *start,
                        gravity: Gravity::Left,
                    },
                ).push(
                    crate::mark::MarkEntry { id: reg.end_id, pos: *end, gravity: Gravity::Right },
                )
                &&& final(parent).next_mark_id == old(parent).next_mark_id + 2
                &&& start_of(reg, *final(parent)) == *start
                &&& end_of(reg, *final(parent)) == *end
                &&& (pos_le(*start, *end) ==> region_wf(reg, *final(parent)))
            }),
            final(parent).text() == old(parent).text(),
            final(parent).cursor == old(parent).cursor,
    {
        if let Err(e) = parent.validate_pos(start) {
            return Err(e);
        }
        if let Err(e) = parent.validate_pos(end) {
            return Err(e);
        }
        if parent.next_mark_id >= u64::MAX - 1 {
            return Err(BufferError::Custom("mark ids exhausted".to_owned()));
        }
        let ghost m0 = parent.marks@;
        let start_id = match parent.create_mark(start) {
            Ok(id) => id,
            Err(e) => {
                return Err(e);  // unreachable: the position was validated
            },
        };
        proof {
            assert forall|i: int| 0 <= i < m0.len() implies m0[i].id != start_id by {}
            crate::mark::lemma_mark_index_is(parent.marks@, start_id, m0.len() as int);
        }
        match parent.set_mark_gravity(start_id, Gravity::Left) {
            Ok(u) => u,
            Err(_) => {
                return Err(BufferError::MarkDestroyed);  // unreachable: just created
            },
        };
        let ghost m1 = parent.marks@;
        let end_id = match parent.create_mark(end) {
            Ok(id) => id,
            Err(e) => {
                return Err(e);  // unreachable: the position was validated
            },
        };
        let reg = BufferRegion { start_id, end_id };
        proof {
            assert(parent.marks@ =~= m0.push(
                crate::mark::MarkEntry { id: start_id, pos: *start, gravity: Gravity::Left },
            ).push(crate::mark::MarkEntry { id: end_id, pos: *end, gravity: Gravity::Right }));
            assert forall|i: int| 0 <= i < m0.len() + 1 implies parent.marks@[i].id != end_id by {}
            crate::mark::lemma_mark_index_is(parent.marks@, end_id, m0.len() as int + 1);
            crate::mark::lemma_mark_index_is(parent.marks@, start_id, m0.len() as int);
        }
        Ok(reg)
    }

    /// Builds a region inside this one: the bounds are given in this
    /// region's coordinates, translated, and the result is one more
    /// region of the same parent. Coordinate translations compose, so
    /// regions nest to any depth.
    pub fn subregion(&self, parent: &mut TextBuffer, start: &Position, end: &Position) -> (r:
        Result<BufferRegion, BufferError>)
        requires
            old(parent).wf(),
            pos_le(*start, *end),
        ensures
            final(parent).wf(),
            ({
                let s = start_of(*self, *old(parent));
                let e = end_of(*self, *old(parent));
                let rl = region_lines(old(parent).text(), s, e);
                &&& (region_wf_marks(*self, *old(parent)) && pos_le(s, e) ==> {
                    &&& (!pos_valid(rl, *start) ==> (r matches Err(er) && er
                        == crate::buffer::validate_error(rl, *start)))
                    &&& (pos_valid(rl, *start) && !pos_valid(rl, *end) ==> (r matches Err(er) && er
                        == crate::buffer::validate_error(rl, *end)))
                })
                &&& (r matches Ok(reg) ==> region_wf(reg, *final(parent)) && start_of(
                    reg,
                    *final(parent),
                ) == to_parent(s, *start) && end_of(reg, *final(parent)) == to_parent(s, *end)
                    && final(parent).text() == old(parent).text())
            }),
            !has_mark(old(parent).marks@, self.start_id) || !has_mark(
                old(parent).marks@,
                self.end_id,
            ) ==> (r matches Err(e) && e == BufferError::MarkDestroyed),
            region_wf_marks(*self, *old(parent)) && !pos_le(
                start_of(*self, *old(parent)),
                end_of(*self, *old(parent)),
            ) ==> (r matches Err(e) && e is Custom),
            r matches Err(_) ==> *final(parent) == *old(parent),
    {
        let pa = match self.real_position(parent, start) {
            Ok(p) => p,
            Err(e) => {
                return Err(e);
            },
        };
        let pb = match self.real_position(parent, end) {
            Ok(p) => p,
            Err(e) => {
                return Err(e);
            },
        };
        if parent.next_mark_id >= u64::MAX - 1 {
            return Err(BufferError::Custom("mark ids exhausted".to_owned()));
        }
        proof {
            assert(pos_le(pa, pb));
        }
        BufferRegion::new(parent, &pa, &pb)
    }

    /// Mints a mark at a region position; the id lives in the parent's
    /// table, like any other mark.
    pub fn create_mark(&self, parent: &mut TextBuffer, pos: &Position) -> (r: Result<
        MarkId,
        BufferError,
    >)
        requires
            old(parent).wf(),
        ensures
            final(parent).wf(),
            ({
                let s = start_of(*self, *old(parent));
                let e = end_of(*self, *old(parent));
                let rl = region_lines(old(parent).text(), s, e);
                &&& (region_wf_marks(*self, *old(parent)) && pos_le(s, e) && !pos_valid(rl, *pos)
                    ==> (r matches Err(er) && er == crate::buffer::validate_error(rl, *pos)))
                &&& (region_wf_marks(*self, *old(parent)) && pos_le(s, e) && pos_valid(rl, *pos)
                    && old(parent).next_mark_id < u64::MAX ==> (r matches Ok(id) && id == MarkId(
                    old(parent).next_mark_id,
                ) && final(parent).marks@ == old(parent).marks@.push(
                    crate::mark::MarkEntry {
                        id,
                        pos: to_parent(s, *pos),
                        gravity: Gravity::Right,
                    },
                )))
            }),
            !has_mark(old(parent).marks@, self.start_id) || !has_mark(
                old(parent).marks@,
                self.end_id,
            ) ==> (r matches Err(e) && e == BufferError::MarkDestroyed),
            region_wf_marks(*self, *old(parent)) && !pos_le(
                start_of(*self, *old(parent)),
                end_of(*self, *old(parent)),
            ) ==> (r matches Err(e) && e is Custom),
            r matches Err(_) ==> *final(parent) == *old(parent),
            final(parent).text() == old(parent).text(),
            final(parent).cursor == old(parent).cursor,
    {
        let q = match self.real_position(parent, pos) {
            Ok(q) => q,
            Err(e) => {
                return Err(e);
            },
        };
        parent.create_mark(&q)
    }

    /// Forgets a mark through the region; ids are shared with the parent.
    pub fn destroy_mark(&self, parent: &mut TextBuffer, id: MarkId) -> (r: Result<
        (),
        BufferError,
    >)
        requires
            old(parent).wf(),
        ensures
            final(parent).wf(),
            !has_mark(old(parent).marks@, id) ==> *final(parent) == *old(parent) && (r matches Err(
                e,
            ) && e == BufferError::MarkDestroyed),
            has_mark(old(parent).marks@, id) ==> r is Ok && final(parent).marks@ == old(
                parent,
            ).marks@.remove(mark_index(old(parent).marks@, id)),
            final(parent).text() == old(parent).text(),
            final(parent).cursor == old(parent).cursor,
            final(parent).next_mark_id == old(parent).next_mark_id,
    {
        parent.destroy_mark(id)
    }

    /// Reads a mark's position in region coordinates; a mark outside the
    /// region is refused as its back-translation dictates.
    pub fn get_mark_position(&self, parent: &TextBuffer, id: MarkId) -> (r: Result<
        Position,
        BufferError,
    >)
        requires
            parent.wf(),
        ensures
            !has_mark(parent.marks@, id) ==> (r matches Err(e) && e == BufferError::MarkDestroyed),
            ({
                let s = start_of(*self, *parent);
                let e = end_of(*self, *parent);
                let rl = region_lines(parent.text(), s, e);
                let mp = parent.marks@[mark_index(parent.marks@, id)].pos;
                has_mark(parent.marks@, id) && region_wf_marks(*self, *parent) && pos_le(s, e)
                    && pos_le(s, mp) && pos_valid(rl, to_region(s, mp)) ==> (r matches Ok(p) && p
                    == to_region(s, mp))
            }),
    {
        let mp = match parent.get_mark_position(id) {
            Ok(p) => p,
            Err(e) => {
                return Err(e);
            },
        };
        self.region_position(parent, &mp)
    }

    /// Moves a mark to a region position.
    pub fn set_mark_position(&self, parent: &mut TextBuffer, id: MarkId, pos: &Position) -> (r:
        Result<(), BufferError>)
        requires
            old(parent).wf(),
        ensures
            final(parent).wf(),
            ({
                let s = start_of(*self, *old(parent));
                let e = end_of(*self, *old(parent));
                let rl = region_lines(old(parent).text(), s, e);
                &&& (region_wf_marks(*self, *old(parent)) && pos_le(s, e) && !pos_valid(rl, *pos)
                    ==> (r matches Err(er) && er == crate::buffer::validate_error(rl, *pos)))
                &&& (region_wf_marks(*self, *old(parent)) && pos_le(s, e) && pos_valid(rl, *pos)
                    && has_mark(old(parent).marks@, id) ==> r is Ok && final(parent).marks@ == old(
                    parent,
                ).marks@.update(
                    mark_index(old(parent).marks@, id),
                    crate::mark::MarkEntry {
                        id,
                        pos: to_parent(s, *pos),
                        gravity: old(parent).marks@[mark_index(old(parent).marks@, id)].gravity,
                    },
                ))
                &&& (region_wf_marks(*self, *old(parent)) && pos_le(s, e) && pos_valid(rl, *pos)
                    && !has_mark(old(parent).marks@, id) ==> (r matches Err(er) && er
                    == BufferError::MarkDestroyed))
            }),
            !has_mark(old(parent).marks@, self.start_id) || !has_mark(
                old(parent).marks@,
                self.end_id,
            ) ==> (r matches Err(e) && e == BufferError::MarkDestroyed),
            region_wf_marks(*self, *old(parent)) && !pos_le(
                start_of(*self, *old(parent)),
                end_of(*self, *old(parent)),
            ) ==> (r matches Err(e) && e is Custom),
            r matches Err(_) ==> *final(parent) == *old(parent),
            final(parent).text() == old(parent).text(),
            final(parent).cursor == old(parent).cursor,
            final(parent).next_mark_id == old(parent).next_mark_id,
    {
        let q = match self.real_position(parent, pos) {
            Ok(q) => q,
            Err(e) => {
                return Err(e);
            },
        };
        parent.set_mark_position(id, &q)
    }

    /// Changes a mark's gravity through the region.
    pub fn set_mark_gravity(&self, parent: &mut TextBuffer, id: MarkId, gravity: Gravity) -> (r:
        Result<(), BufferError>)
        requires
            old(parent).wf(),
        ensures
            final(parent).wf(),
            !has_mark(old(parent).marks@, id) ==> *final(parent) == *old(parent) && (r matches Err(
                e,
            ) && e == BufferError::MarkDestroyed),
            has_mark(old(parent).marks@, id) ==> r is Ok && final(parent).marks@ == old(
                parent,
            ).marks@.update(
                mark_index(old(parent).marks@, id),
                crate::mark::MarkEntry {
                    id,
                    pos: old(parent).marks@[mark_index(old(parent).marks@, id)].pos,
                    gravity,
                },
            ),
            final(parent).text() == old(parent).text(),
            final(parent).cursor == old(parent).cursor,
            final(parent).next_mark_id == old(parent).next_mark_id,
    {
        parent.set_mark_gravity(id, gravity)
    }

    /// The parent's cursor in region coordinates; a cursor outside the
    /// region is refused as its back-translation dictates.
    pub fn get_cursor(&self, parent: &TextBuffer) -> (r: Result<Position, BufferError>)
        requires
            parent.wf(),
        ensures
            ({
                let s = start_of(*self, *parent);
                let e = end_of(*self, *parent);
                let rl = region_lines(parent.text(), s, e);
                let c = parent.cursor_pos();
                &&& (region_wf_marks(*self, *parent) && pos_le(s, e) && pos_le(s, c) && pos_valid(
                    rl,
                    to_region(s, c),
                ) ==> (r matches Ok(p) && p == to_region(s, c)))
                &&& (!has_mark(parent.marks@, self.start_id) || !has_mark(
                    parent.marks@,
                    self.end_id,
                ) ==> (r matches Err(er) && er == BufferError::MarkDestroyed))
            }),
    {
        let c = parent.get_cursor();
        self.region_position(parent, &c)
    }

    /// Moves the parent's cursor to a region position.
    pub fn set_cursor(&self, parent: &mut TextBuffer, position: &Position) -> (r: Result<
        (),
        BufferError,
    >)
        requires
            old(parent).wf(),
        ensures
            final(parent).wf(),
            ({
                let s = start_of(*self, *old(parent));
                let e = end_of(*self, *old(parent));
                let rl = region_lines(old(parent).text(), s, e);
                &&& (region_wf_marks(*self, *old(parent)) && pos_le(s, e) ==> {
                    &&& (r is Ok <==> pos_valid(rl, *position))
                    &&& (!pos_valid(rl, *position) ==> (r matches Err(er) && er
                        == crate::buffer::validate_error(rl, *position)))
                })
                &&& (r is Ok ==> final(parent).cursor == to_parent(s, *position))
            }),
            !has_mark(old(parent).marks@, self.start_id) || !has_mark(
                old(parent).marks@,
                self.end_id,
            ) ==> (r matches Err(e) && e == BufferError::MarkDestroyed),
            region_wf_marks(*self, *old(parent)) && !pos_le(
                start_of(*self, *old(parent)),
                end_of(*self, *old(parent)),
            ) ==> (r matches Err(e) && e is Custom),
            r matches Err(_) ==> *final(parent) == *old(parent),
            final(parent).text() == old(parent).text(),
            final(parent).marks@ == old(parent).marks@,
            final(parent).next_mark_id == old(parent).next_mark_id,
    {
        let q = match self.real_position(parent, position) {
            Ok(q) => q,
            Err(e) => {
                return Err(e);
            },
        };
        match parent.set_cursor(&q) {
            Ok(u) => Ok(u),
            Err(_) => Err(BufferError::MarkDestroyed),  // unreachable: the translation is valid
        }
    }
}

/// A region in good standing stays in good standing under any splice of
/// its parent, wherever the edit falls: the boundary marks survive with
/// their gravities, and the left-leaning start cannot overtake the
/// right-leaning end.
pub proof fn law_region_survives_edit(
    r: BufferRegion,
    before: TextBuffer,
    after: TextBuffer,
    a: Position,
    b: Position,
    ins: Seq<Seq<char>>,
)
    requires
        region_wf(r, before),
        crate::mark::marks_drifted(before.marks@, after.marks@, a, b, ins),
        pos_le(a, b),
        ins.len() >= 1,
    ensures
        region_wf(r, after),
        start_of(r, after).row as int == crate::mark::drift_row(
            start_of(r, before),
            a,
            b,
            ins.len() - 1,
            Gravity::Left,
        ),
        end_of(r, after).row as int == crate::mark::drift_row(
            end_of(r, before),
            a,
            b,
            ins.len() - 1,
            Gravity::Right,
        ),
{
    crate::mark::lemma_mark_index_same_ids(before.marks@, after.marks@, r.start_id);
    crate::mark::lemma_mark_index_same_ids(before.marks@, after.marks@, r.end_id);
    crate::mark::lemma_mark_index(before.marks@, r.start_id);
    crate::mark::lemma_mark_index(before.marks@, r.end_id);
    crate::mark::lemma_drift_order(
        start_of(r, before),
        end_of(r, before),
        a,
        b,
        ins.len() - 1,
        ins.last().len() as int,
    );
}

/// Writing a region's whole extent is faithful: replace everything from
/// `s` to `e` with the segments `ins`, let the left-leaning start stay at
/// `s` and the right-leaning end ride to the end of the insertion — the
/// region then reads exactly `ins`. This is why a region behaves as a
/// buffer of its own under `set_content`.
pub proof fn law_region_write_faithful(
    ls: Seq<Seq<char>>,
    s: Position,
    e: Position,
    ins: Seq<Seq<char>>,
)
    requires
        crate::text::lines_ok(ls),
        crate::text::lines_ok(ins),
        pos_valid(ls, s),
        pos_valid(ls, e),
        pos_le(s, e),
        s.row + ins.len() - 1 <= usize::MAX,
        crate::mark::end_col(s, ins.len() - 1, ins.last().len() as int) <= usize::MAX,
    ensures
        ({
            let dr = ins.len() - 1;
            let dc = ins.last().len() as int;
            let sp = crate::text::splice_lines(ls, s, e, ins);
            let r2 = crate::mark::drift_row(e, s, e, dr, Gravity::Right);
            let c2 = crate::mark::drift_col(e, s, e, dr, dc, Gravity::Right);
            &&& crate::mark::drift_row(s, s, e, dr, Gravity::Left) == s.row
            &&& crate::mark::drift_col(s, s, e, dr, dc, Gravity::Left) == s.col
            &&& region_lines(sp, s, Position { row: r2 as usize, col: c2 as usize }) == ins
        }),
{
    let dr = ins.len() - 1;
    let dc = ins.last().len() as int;
    let sp = crate::text::splice_lines(ls, s, e, ins);
    let r2 = crate::mark::drift_row(e, s, e, dr, Gravity::Right);
    let c2 = crate::mark::drift_col(e, s, e, dr, dc, Gravity::Right);
    crate::text::lemma_splice_wf(ls, s, e, ins);
    crate::mark::lemma_drift_valid(ls, s, e, ins, e, Gravity::Right);
    let e2 = Position { row: r2 as usize, col: c2 as usize };
    let pre = ls[s.row as int].take(s.col as int);
    let suf = ls[e.row as int].skip(e.col as int);
    let rl = region_lines(sp, s, e2);
    assert(rl.len() == ins.len());
    assert forall|j: int| 0 <= j < ins.len() implies rl[j] =~= ins[j] by {
        if ins.len() == 1 {
            assert(sp[s.row as int] == pre + ins[0] + suf);
            assert(rl[0] =~= (pre + ins[0] + suf).take(c2).skip(s.col as int));
        } else if j == 0 {
            assert(sp[s.row as int] == pre + ins[0]);
            assert(rl[0] =~= (pre + ins[0]).skip(s.col as int));
        } else if j == ins.len() - 1 {
            assert(sp[s.row + ins.len() - 1] == ins.last() + suf);
            assert(rl[j] =~= (ins.last() + suf).take(c2));
        } else {
            assert(sp[s.row + j] == ins[j]);
        }
    }
    assert(rl =~~= ins);
}

/// A live mark's position is a position of its buffer; in particular a
/// region's bounds are.
pub proof fn lemma_region_bounds_valid(r: BufferRegion, b: TextBuffer)
    requires
        b.wf(),
    ensures
        has_mark(b.marks@, r.start_id) ==> pos_valid(b.text(), start_of(r, b)),
        has_mark(b.marks@, r.end_id) ==> pos_valid(b.text(), end_of(r, b)),
{
    crate::mark::lemma_mark_index(b.marks@, r.start_id);
    crate::mark::lemma_mark_index(b.marks@, r.end_id);
}

} // verus!
