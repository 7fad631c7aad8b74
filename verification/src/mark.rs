//! Marks: identity-bearing positions that drift under edits.
//!
//! A mark lives in its buffer's mark table as an id, a position and a
//! gravity. [`drift_row`] and [`drift_col`] define, per the sticky-left /
//! sticky-right policy, where a mark lands when the text between `a` and
//! `b` is replaced by text spanning `dr` newlines and ending in a segment
//! of `dc` code units.

use vstd::prelude::*;

use crate::buffer::{validate_error, TextBuffer};
use crate::error::BufferError;
use crate::position::{pos_le, pos_lt, Position};
use crate::text::{lines_ok, pos_valid, splice_lines};

verus! {

/// Which way a mark leans when an edit swallows or touches it.
#[derive(Debug, Clone, Copy, PartialEq, Eq, Structural)]
pub enum Gravity {
    /// Stick to the start of the replaced range.
    Left,
    /// Stick to the end of the inserted text.
    Right,
}

/// An opaque mark identity. Only the owning buffer can mint one, and ids
/// are never reused within a buffer.
#[derive(Debug, Clone, Copy, PartialEq, Eq, Structural, Hash)]
pub struct MarkId(pub u64);

/// One row of a buffer's mark table.
#[derive(Debug, Clone, Copy, PartialEq, Eq, Structural)]
pub struct MarkEntry {
    pub id: MarkId,
    pub pos: Position,
    pub gravity: Gravity,
}

/// The column at which inserted text of extent `(dr, dc)` ends when the
/// insertion starts at `a`: on `a`'s own line when the text has no
/// newline, at `dc` otherwise.
pub open spec fn end_col(a: Position, dr: int, dc: int) -> int {
    if dr == 0 {
        a.col + dc
    } else {
        dc
    }
}

/// The row where a mark at `p` lands after the text in `[a, b)` is
/// replaced by text of extent `(dr, dc)`.
pub open spec fn drift_row(p: Position, a: Position, b: Position, dr: int, g: Gravity) -> int {
    if pos_lt(p, a) {
        p.row as int  // strictly before the edit: untouched
    } else if pos_le(p, b) {
        match g {  // inside the replaced range: collapse by gravity
            Gravity::Left => a.row as int,
            Gravity::Right => a.row + dr,
        }
    } else if p.row == b.row {
        a.row + dr  // after the edit, on its closing line
    } else {
        p.row + dr - (b.row - a.row)  // after the edit, on a later line
    }
}

/// The column where a mark at `p` lands; cases as in [`drift_row`].
pub open spec fn drift_col(
    p: Position,
    a: Position,
    b: Position,
    dr: int,
    dc: int,
    g: Gravity,
) -> int {
    if pos_lt(p, a) {
        p.col as int
    } else if pos_le(p, b) {
        match g {
            Gravity::Left => a.col as int,
            Gravity::Right => end_col(a, dr, dc),
        }
    } else if p.row == b.row {
        end_col(a, dr, dc) + (p.col - b.col)
    } else {
        p.col as int
    }
}

/// Each entry of `after` is the matching entry of `before` with its
/// position drifted over the replacement of `[a, b)` by the segments
/// `ins`: identities and gravities survive every edit, positions move.
pub open spec fn marks_drifted(
    before: Seq<MarkEntry>,
    after: Seq<MarkEntry>,
    a: Position,
    b: Position,
    ins: Seq<Seq<char>>,
) -> bool {
    &&& after.len() == before.len()
    &&& forall|i: int|
        0 <= i < before.len() ==> {
            let m = before[i];
            &&& (#[trigger] after[i]).id == m.id
            &&& after[i].gravity == m.gravity
            &&& after[i].pos.row as int == drift_row(m.pos, a, b, ins.len() - 1, m.gravity)
            &&& after[i].pos.col as int == drift_col(
                m.pos,
                a,
                b,
                ins.len() - 1,
                ins.last().len() as int,
                m.gravity,
            )
        }
}

/// A drifted mark is a valid position of the spliced buffer.
pub proof fn lemma_drift_valid(
    ls: Seq<Seq<char>>,
    a: Position,
    b: Position,
    ins: Seq<Seq<char>>,
    p: Position,
    g: Gravity,
)
    requires
        lines_ok(ls),
        lines_ok(ins),
        pos_valid(ls, a),
        pos_valid(ls, b),
        pos_le(a, b),
        pos_valid(ls, p),
    ensures
        ({
            let dr = ins.len() - 1;
            let dc = ins.last().len() as int;
            let sp = splice_lines(ls, a, b, ins);
            let r = drift_row(p, a, b, dr, g);
            let c = drift_col(p, a, b, dr, dc, g);
            0 <= r < sp.len() && 0 <= c <= sp[r].len()
        }),
{
    let dr = ins.len() - 1;
    let dc = ins.last().len() as int;
    let sp = splice_lines(ls, a, b, ins);
    let r = drift_row(p, a, b, dr, g);
    let c = drift_col(p, a, b, dr, dc, g);
    crate::text::lemma_splice_wf(ls, a, b, ins);
    let pre = ls[a.row as int].take(a.col as int);
    let suf = ls[b.row as int].skip(b.col as int);
    if pos_lt(p, a) {
        if p.row < a.row {
            assert(sp[r] == ls[r]);
        } else {
            assert(r == a.row as int);
            assert(sp[a.row as int].len() >= a.col);
        }
    } else if pos_le(p, b) {
        match g {
            Gravity::Left => {
                assert(sp[a.row as int].len() >= a.col);
            },
            Gravity::Right => {
                if dr == 0 {
                    assert(sp[r] == pre + ins[0] + suf);
                } else {
                    assert(sp[r] == ins.last() + suf);
                }
            },
        }
    } else if p.row == b.row {
        assert(p.col > b.col);
        assert(p.col <= ls[b.row as int].len());
        if dr == 0 {
            assert(sp[r] == pre + ins[0] + suf);
        } else {
            assert(sp[r] == ins.last() + suf);
        }
        assert(suf.len() == ls[b.row as int].len() - b.col);
    } else {
        assert(p.row > b.row);
        assert(sp[p.row + ins.len() - 1 - (b.row - a.row)] == ls[p.row as int]);
    }
}

/// Index of the first entry carrying `id`, or `marks.len()` if none does.
pub open spec fn mark_index(marks: Seq<MarkEntry>, id: MarkId) -> int
    decreases marks.len(),
{
    if marks.len() == 0 {
        0
    } else if marks[0].id == id {
        0
    } else {
        1 + mark_index(marks.drop_first(), id)
    }
}

/// Whether some entry carries `id`.
pub open spec fn has_mark(marks: Seq<MarkEntry>, id: MarkId) -> bool {
    mark_index(marks, id) < marks.len()
}

/// `mark_index` points at the first entry with `id`: everything before
/// it carries another id, and it is `marks.len()` exactly when no entry
/// carries `id`.
pub proof fn lemma_mark_index(marks: Seq<MarkEntry>, id: MarkId)
    ensures
        0 <= mark_index(marks, id) <= marks.len(),
        forall|i: int| 0 <= i < mark_index(marks, id) ==> marks[i].id != id,
        mark_index(marks, id) < marks.len() ==> marks[mark_index(marks, id)].id == id,
    decreases marks.len(),
{
    if marks.len() > 0 && marks[0].id != id {
        lemma_mark_index(marks.drop_first(), id);
        assert forall|i: int| 0 <= i < mark_index(marks, id) implies marks[i].id != id by {
            if i > 0 {
                assert(marks.drop_first()[i - 1].id != id);
            }
        }
    }
}

/// `mark_index` is determined by its characterization.
pub proof fn lemma_mark_index_is(marks: Seq<MarkEntry>, id: MarkId, k: int)
    requires
        0 <= k <= marks.len(),
        forall|i: int| 0 <= i < k ==> marks[i].id != id,
        k < marks.len() ==> marks[k].id == id,
    ensures
        mark_index(marks, id) == k,
    decreases marks.len(),
{
    if marks.len() > 0 && marks[0].id != id {
        lemma_mark_index_is(marks.drop_first(), id, k - 1);
    }
}

/// Finding a mark only looks at ids: two tables carrying the same ids in
/// the same order resolve every id to the same index.
pub proof fn lemma_mark_index_same_ids(before: Seq<MarkEntry>, after: Seq<MarkEntry>, id: MarkId)
    requires
        after.len() == before.len(),
        forall|i: int| 0 <= i < before.len() ==> (#[trigger] after[i]).id == before[i].id,
    ensures
        mark_index(after, id) == mark_index(before, id),
    decreases before.len(),
{
    if before.len() > 0 {
        assert(after[0].id == before[0].id);
        if before[0].id != id {
            assert(forall|i: int|
                0 <= i < before.drop_first().len() ==> (#[trigger] after.drop_first()[i]).id
                    == before.drop_first()[i].id);
            lemma_mark_index_same_ids(before.drop_first(), after.drop_first(), id);
        }
    }
}

/// Gravity discipline keeps order: a left-leaning mark never overtakes a
/// right-leaning one it did not already trail. This is what keeps a
/// region's start at or before its end under arbitrary edits.
pub proof fn lemma_drift_order(p: Position, q: Position, a: Position, b: Position, dr: int, dc: int)
    requires
        pos_le(p, q),
        pos_le(a, b),
        dr >= 0,
        dc >= 0,
    ensures
        ({
            let pr = drift_row(p, a, b, dr, Gravity::Left);
            let pc = drift_col(p, a, b, dr, dc, Gravity::Left);
            let qr = drift_row(q, a, b, dr, Gravity::Right);
            let qc = drift_col(q, a, b, dr, dc, Gravity::Right);
            pr < qr || (pr == qr && pc <= qc)
        }),
{
}

/// Read access to marks, as a capability any mark-keeping store can
/// offer: a mark table and a position lookup by id.
pub trait MarkReadBuffer {
    /// The mark table the implementation maintains.
    spec fn mark_view(&self) -> Seq<MarkEntry>;

    /// The implementation's own validity.
    spec fn mark_inv(&self) -> bool;

    /// Reads the current position of the mark `id`; a destroyed or
    /// foreign id is refused.
    fn get_mark_position(&self, id: MarkId) -> (r: Result<Position, BufferError>)
        requires
            self.mark_inv(),
        ensures
            has_mark(self.mark_view(), id) ==> (r matches Ok(p) && p == self.mark_view()[
                mark_index(self.mark_view(), id)].pos),
            !has_mark(self.mark_view(), id) ==> (r matches Err(e) && e
                == BufferError::MarkDestroyed),
    ;
}

/// Write access to marks: creation with fresh identity, destruction, and
/// repositioning; identities are never reused.
pub trait MarkWriteBuffer: MarkReadBuffer {
    /// Mints a mark at `pos` with right gravity and a fresh id.
    fn create_mark(&mut self, pos: &Position) -> (r: Result<MarkId, BufferError>)
        requires
            old(self).mark_inv(),
        ensures
            final(self).mark_inv(),
            r matches Ok(id) ==> !has_mark(old(self).mark_view(), id) && final(self).mark_view()
                == old(self).mark_view().push(
                MarkEntry { id, pos: *pos, gravity: Gravity::Right },
            ),
            r matches Err(_) ==> final(self).mark_view() == old(self).mark_view(),
    ;

    /// Forgets the mark `id`.
    fn destroy_mark(&mut self, id: MarkId) -> (r: Result<(), BufferError>)
        requires
            old(self).mark_inv(),
        ensures
            final(self).mark_inv(),
            !has_mark(old(self).mark_view(), id) ==> (r matches Err(e) && e
                == BufferError::MarkDestroyed) && final(self).mark_view() == old(self).mark_view(),
            has_mark(old(self).mark_view(), id) ==> r is Ok && final(self).mark_view() == old(
                self,
            ).mark_view().remove(mark_index(old(self).mark_view(), id)),
    ;

    /// Moves the mark `id`, keeping its gravity.
    fn set_mark_position(&mut self, id: MarkId, pos: &Position) -> (r: Result<(), BufferError>)
        requires
            old(self).mark_inv(),
        ensures
            final(self).mark_inv(),
            !has_mark(old(self).mark_view(), id) ==> (r matches Err(e) && e
                == BufferError::MarkDestroyed),
            r is Ok ==> has_mark(old(self).mark_view(), id) && final(self).mark_view() == old(
                self,
            ).mark_view().update(
                mark_index(old(self).mark_view(), id),
                MarkEntry {
                    id,
                    pos: *pos,
                    gravity: old(self).mark_view()[mark_index(old(self).mark_view(), id)].gravity,
                },
            ),
            r matches Err(_) ==> final(self).mark_view() == old(self).mark_view(),
    ;

    /// Changes the mark's gravity, keeping its position.
    fn set_mark_gravity(&mut self, id: MarkId, gravity: Gravity) -> (r: Result<(), BufferError>)
        requires
            old(self).mark_inv(),
        ensures
            final(self).mark_inv(),
            !has_mark(old(self).mark_view(), id) ==> (r matches Err(e) && e
                == BufferError::MarkDestroyed) && final(self).mark_view() == old(self).mark_view(),
            has_mark(old(self).mark_view(), id) ==> r is Ok && final(self).mark_view() == old(
                self,
            ).mark_view().update(
                mark_index(old(self).mark_view(), id),
                MarkEntry {
                    id,
                    pos: old(self).mark_view()[mark_index(old(self).mark_view(), id)].pos,
                    gravity,
                },
            ),
    ;
}

/// The two mark capabilities bundled, for bounds that want a full
/// mark-keeping store.
pub trait MarksBuffer: MarkWriteBuffer {

}

impl MarkReadBuffer for TextBuffer {
    open spec fn mark_view(&self) -> Seq<MarkEntry> {
        self.marks@
    }

    open spec fn mark_inv(&self) -> bool {
        self.wf()
    }

    fn get_mark_position(&self, id: MarkId) -> (r: Result<Position, BufferError>) {
        TextBuffer::get_mark_position(self, id)
    }
}

impl MarkWriteBuffer for TextBuffer {
    fn create_mark(&mut self, pos: &Position) -> (r: Result<MarkId, BufferError>) {
        let r = TextBuffer::create_mark(self, pos);
        proof {
            if r is Ok {
                assert(forall|i: int|
                    0 <= i < old(self).marks@.len() ==> (#[trigger] old(self).marks@[i]).id
                        != MarkId(old(self).next_mark_id));
                lemma_mark_index_is(
                    old(self).marks@,
                    MarkId(old(self).next_mark_id),
                    old(self).marks@.len() as int,
                );
            }
        }
        r
    }

    fn destroy_mark(&mut self, id: MarkId) -> (r: Result<(), BufferError>) {
        TextBuffer::destroy_mark(self, id)
    }

    fn set_mark_position(&mut self, id: MarkId, pos: &Position) -> (r: Result<(), BufferError>) {
        TextBuffer::set_mark_position(self, id, pos)
    }

    fn set_mark_gravity(&mut self, id: MarkId, gravity: Gravity) -> (r: Result<(), BufferError>) {
        TextBuffer::set_mark_gravity(self, id, gravity)
    }
}

impl MarksBuffer for TextBuffer {

}

impl TextBuffer {
    /// Mints a mark at `pos` with the default right gravity and hands out
    /// its fresh id. Refused only for an invalid position — or, in the
    /// aeon when `u64` ids run out, with a custom error.
    pub fn create_mark(&mut self, pos: &Position) -> (r: Result<MarkId, BufferError>)
        requires
            old(self).wf(),
        ensures
            final(self).wf(),
            !pos_valid(old(self).text(), *pos) ==> *final(self) == *old(self) && (r matches Err(e)
                && e == validate_error(old(self).text(), *pos)),
            pos_valid(old(self).text(), *pos) && old(self).next_mark_id == u64::MAX ==> *final(self)
                == *old(self) && (r matches Err(e) && e is Custom),
            pos_valid(old(self).text(), *pos) && old(self).next_mark_id < u64::MAX ==> (r matches Ok(
                id,
            ) && id == MarkId(old(self).next_mark_id) && final(self).marks@ == old(self).marks@.push(MarkEntry { id, pos: *pos, gravity: Gravity::Right }) && final(self).next_mark_id == old(self).next_mark_id + 1),
            final(self).text() == old(self).text(),
            final(self).cursor == old(self).cursor,
    {
        if let Err(e) = self.validate_pos(pos) {
            return Err(e);
        }
        if self.next_mark_id == u64::MAX {
            return Err(BufferError::Custom("mark ids exhausted".to_owned()));
        }
        let id = MarkId(self.next_mark_id);
        self.next_mark_id = self.next_mark_id + 1;
        self.marks.push(MarkEntry { id, pos: *pos, gravity: Gravity::Right });
        Ok(id)
    }

    /// Forgets the mark `id`. A destroyed — or foreign — id is refused.
    pub fn destroy_mark(&mut self, id: MarkId) -> (r: Result<(), BufferError>)
        requires
            old(self).wf(),
        ensures
            final(self).wf(),
            !has_mark(old(self).marks@, id) ==> *final(self) == *old(self) && (r matches Err(e) && e
                == BufferError::MarkDestroyed),
            has_mark(old(self).marks@, id) ==> r is Ok && final(self).marks@ == old(self).marks@.remove(mark_index(old(self).marks@, id)),
            final(self).text() == old(self).text(),
            final(self).cursor == old(self).cursor,
            final(self).next_mark_id == old(self).next_mark_id,
    {
        let mut i: usize = 0;
        while i < self.marks.len()
            invariant
                old(self).wf(),
                0 <= i <= self.marks@.len(),
                forall|x: int| 0 <= x < i ==> self.marks@[x].id != id,
                *self == *old(self),
            decreases self.marks@.len() - i,
        {
            if self.marks[i].id == id {
                proof {
                    lemma_mark_index_is(self.marks@, id, i as int);
                }
                let ghost s0 = self.marks@;
                let ghost k = i as int;
                self.marks.remove(i);
                proof {
                    assert forall|x: int| 0 <= x < self.marks@.len() implies pos_valid(
                        self.text(),
                        (#[trigger] self.marks@[x]).pos,
                    ) && self.marks@[x].id.0 < self.next_mark_id by {
                        if x < k {
                            assert(self.marks@[x] == s0[x]);
                        } else {
                            assert(self.marks@[x] == s0[x + 1]);
                        }
                    }
                    assert forall|x: int, y: int|
                        0 <= x < y < self.marks@.len() implies self.marks@[x].id
                        != self.marks@[y].id by {
                        assert(self.marks@[x] == if x < k { s0[x] } else { s0[x + 1] });
                        assert(self.marks@[y] == if y < k { s0[y] } else { s0[y + 1] });
                    }
                }
                return Ok(());
            }
            i = i + 1;
        }
        proof {
            lemma_mark_index_is(self.marks@, id, self.marks@.len() as int);
        }
        Err(BufferError::MarkDestroyed)
    }

    /// Reads the current position of the mark `id`.
    pub fn get_mark_position(&self, id: MarkId) -> (r: Result<Position, BufferError>)
        requires
            self.wf(),
        ensures
            has_mark(self.marks@, id) ==> (r matches Ok(p) && p == self.marks@[mark_index(
                self.marks@,
                id,
            )].pos),
            !has_mark(self.marks@, id) ==> (r matches Err(e) && e == BufferError::MarkDestroyed),
    {
        let mut i: usize = 0;
        while i < self.marks.len()
            invariant
                self.wf(),
                0 <= i <= self.marks@.len(),
                forall|x: int| 0 <= x < i ==> self.marks@[x].id != id,
            decreases self.marks@.len() - i,
        {
            if self.marks[i].id == id {
                proof {
                    lemma_mark_index_is(self.marks@, id, i as int);
                }
                return Ok(self.marks[i].pos);
            }
            i = i + 1;
        }
        proof {
            lemma_mark_index_is(self.marks@, id, self.marks@.len() as int);
        }
        Err(BufferError::MarkDestroyed)
    }

    /// Moves the mark `id` to `pos`. The mark must exist (checked first)
    /// and the position must validate.
    pub fn set_mark_position(&mut self, id: MarkId, pos: &Position) -> (r: Result<
        (),
        BufferError,
    >)
        requires
            old(self).wf(),
        ensures
            final(self).wf(),
            !has_mark(old(self).marks@, id) ==> *final(self) == *old(self) && (r matches Err(e) && e
                == BufferError::MarkDestroyed),
            has_mark(old(self).marks@, id) && !pos_valid(old(self).text(), *pos) ==> *final(self)
                == *old(self) && (r matches Err(e) && e == validate_error(old(self).text(), *pos)),
            has_mark(old(self).marks@, id) && pos_valid(old(self).text(), *pos) ==> r is Ok && final(self).marks@ == old(self).marks@.update(
                mark_index(old(self).marks@, id),
                MarkEntry {
                    id,
                    pos: *pos,
                    gravity: old(self).marks@[mark_index(old(self).marks@, id)].gravity,
                },
            ),
            final(self).text() == old(self).text(),
            final(self).cursor == old(self).cursor,
            final(self).next_mark_id == old(self).next_mark_id,
    {
        let mut i: usize = 0;
        while i < self.marks.len()
            invariant
                old(self).wf(),
                0 <= i <= self.marks@.len(),
                forall|x: int| 0 <= x < i ==> self.marks@[x].id != id,
                *self == *old(self),
            decreases self.marks@.len() - i,
        {
            if self.marks[i].id == id {
                proof {
                    lemma_mark_index_is(self.marks@, id, i as int);
                }
                if let Err(e) = self.validate_pos(pos) {
                    return Err(e);
                }
                let g = self.marks[i].gravity;
                self.marks.set(i, MarkEntry { id, pos: *pos, gravity: g });
                return Ok(());
            }
            i = i + 1;
        }
        proof {
            lemma_mark_index_is(self.marks@, id, self.marks@.len() as int);
        }
        Err(BufferError::MarkDestroyed)
    }

    /// Changes which way the mark `id` leans under future edits.
    pub fn set_mark_gravity(&mut self, id: MarkId, gravity: Gravity) -> (r: Result<
        (),
        BufferError,
    >)
        requires
            old(self).wf(),
        ensures
            final(self).wf(),
            !has_mark(old(self).marks@, id) ==> *final(self) == *old(self) && (r matches Err(e) && e
                == BufferError::MarkDestroyed),
            has_mark(old(self).marks@, id) ==> r is Ok && final(self).marks@ == old(self).marks@.update(
                mark_index(old(self).marks@, id),
                MarkEntry {
                    id,
                    pos: old(self).marks@[mark_index(old(self).marks@, id)].pos,
                    gravity,
                },
            ),
            final(self).text() == old(self).text(),
            final(self).cursor == old(self).cursor,
            final(self).next_mark_id == old(self).next_mark_id,
    {
        let mut i: usize = 0;
        while i < self.marks.len()
            invariant
                old(self).wf(),
                0 <= i <= self.marks@.len(),
                forall|x: int| 0 <= x < i ==> self.marks@[x].id != id,
                *self == *old(self),
            decreases self.marks@.len() - i,
        {
            if self.marks[i].id == id {
                proof {
                    lemma_mark_index_is(self.marks@, id, i as int);
                }
                let p = self.marks[i].pos;
                self.marks.set(i, MarkEntry { id, pos: p, gravity });
                return Ok(());
            }
            i = i + 1;
        }
        proof {
            lemma_mark_index_is(self.marks@, id, self.marks@.len() as int);
        }
        Err(BufferError::MarkDestroyed)
    }
}

} // verus!
