//! Buffer-state strings: a buffer's content and cursor written as one
//! string, the cursor marked by a single `|`.
//!
//! The grammar is exact: the string must hold exactly one `|`, which
//! stands between characters and never in the content; everything else,
//! a trailing newline included, is content as-is.

use vstd::prelude::*;

use crate::buffer::TextBuffer;
use crate::error::BufferError;
use crate::position::Position;
use crate::text::{pos_valid, split_lines};

verus! {

/// How many times `c` occurs in `t`.
pub open spec fn count_matches(t: Seq<char>, c: char) -> int
    decreases t.len(),
{
    if t.len() == 0 {
        0
    } else {
        (if t[0] == c {
            1int
        } else {
            0int
        }) + count_matches(t.drop_first(), c)
    }
}

/// Index of the first occurrence of `c` in `t`, or `t.len()` if none.
pub open spec fn first_index(t: Seq<char>, c: char) -> int
    decreases t.len(),
{
    if t.len() == 0 {
        0
    } else if t[0] == c {
        0
    } else {
        1 + first_index(t.drop_first(), c)
    }
}

/// `first_index` points at the first occurrence of `c`, which exists
/// exactly when the count is positive.
pub proof fn lemma_first_index(t: Seq<char>, c: char)
    ensures
        0 <= first_index(t, c) <= t.len(),
        forall|i: int| 0 <= i < first_index(t, c) ==> t[i] != c,
        first_index(t, c) < t.len() ==> t[first_index(t, c)] == c,
        count_matches(t, c) >= 1 <==> first_index(t, c) < t.len(),
        count_matches(t, c) >= 0,
    decreases t.len(),
{
    if t.len() > 0 {
        lemma_first_index(t.drop_first(), c);
        if t[0] != c {
            assert forall|i: int| 0 <= i < first_index(t, c) implies t[i] != c by {
                if i > 0 {
                    assert(t.drop_first()[i - 1] != c);
                }
            }
        }
    }
}

/// `first_index` is determined by its characterization.
pub proof fn lemma_first_index_is(t: Seq<char>, c: char, k: int)
    requires
        0 <= k <= t.len(),
        forall|i: int| 0 <= i < k ==> t[i] != c,
        k < t.len() ==> t[k] == c,
    ensures
        first_index(t, c) == k,
    decreases t.len(),
{
    if t.len() > 0 && t[0] != c {
        lemma_first_index_is(t.drop_first(), c, k - 1);
    }
}

/// Taking one character out of a string leaves the position of the cut a
/// valid position of what remains: the cut's line only got shorter on
/// the far side. This is what makes a parsed cursor always land inside
/// the parsed content.
pub proof fn lemma_cut_position_valid(t: Seq<char>, k: int)
    requires
        0 <= k < t.len(),
    ensures
        ({
            let content = split_lines(t.take(k) + t.skip(k + 1));
            let row = split_lines(t.take(k)).len() - 1;
            let col = split_lines(t.take(k)).last().len();
            &&& 0 <= row < content.len()
            &&& col <= content[row].len()
        }),
{
    crate::text::lemma_split_lines_concat(t.take(k), t.skip(k + 1));
    crate::text::lemma_split_lines_wf(t.take(k));
    crate::text::lemma_split_lines_wf(t.skip(k + 1));
    let x = split_lines(t.take(k));
    let y = split_lines(t.skip(k + 1));
    let content = split_lines(t.take(k) + t.skip(k + 1));
    assert(content[x.len() - 1] == x.last() + y.first());
}

/// Reads a state string: the content is the string with the `|` taken
/// out, and the cursor sits where the `|` stood — its row the line the
/// marker is on, its column the marker's offset within that line.
pub fn parse_buffer_state(state: &str) -> (r: (String, Position))
    requires
        count_matches(state@, '|') == 1,
    ensures
        ({
            let k = first_index(state@, '|');
            &&& r.0@ == state@.take(k) + state@.skip(k + 1)
            &&& r.1.row as int == split_lines(state@.take(k)).len() - 1
            &&& r.1.col as int == split_lines(state@.take(k)).last().len()
        }),
{
    let n = state.unicode_len();
    proof {
        lemma_first_index(state@, '|');
    }
    let mut i: usize = 0;
    while state.get_char(i) != '|'
        invariant
            n == state@.len(),
            0 <= i <= first_index(state@, '|') < n,
            forall|x: int| 0 <= x < i ==> state@[x] != '|',
        decreases n - i,
    {
        proof {
            lemma_first_index(state@, '|');
        }
        i = i + 1;
    }
    proof {
        lemma_first_index_is(state@, '|', i as int);
    }
    let pre = state.substring_char(0, i);
    let cursor = Position::max_text_pos(pre);
    let mut content = pre.to_owned();
    content.append(state.substring_char(i + 1, n));
    (content, cursor)
}

/// Seeds `buffer` from a state string: content and cursor in one write.
/// The parsed cursor always lands inside the parsed content
/// ([`lemma_cut_position_valid`]), so this cannot fail.
pub fn set_buffer_state(buffer: &mut TextBuffer, state: &str) -> (r: Result<(), BufferError>)
    requires
        old(buffer).wf(),
        count_matches(state@, '|') == 1,
    ensures
        final(buffer).wf(),
        r is Ok,
        ({
            let k = first_index(state@, '|');
            let content = state@.take(k) + state@.skip(k + 1);
            let cursor = Position {
                row: (split_lines(state@.take(k)).len() - 1) as usize,
                col: split_lines(state@.take(k)).last().len() as usize,
            };
            &&& final(buffer).text() == split_lines(content)
            &&& final(buffer).cursor_pos() == cursor
        }),
{
    let (content, pos) = parse_buffer_state(state);
    let rc = buffer.set_content(content.as_str());
    proof {
        assert(rc is Ok);
        lemma_first_index(state@, '|');
        lemma_cut_position_valid(state@, first_index(state@, '|'));
    }
    let rs = buffer.set_cursor(&pos);
    proof {
        assert(rs is Ok);
    }
    rs
}

} // verus!
